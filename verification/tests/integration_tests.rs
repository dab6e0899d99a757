use lib::config::{Config, RuleSeverityConfig};
use lib::linter;

fn default_config() -> Config {
    Config::default()
}

fn quality_config(enable: &[&str]) -> Config {
    let mut config = default_config();
    for rule in enable {
        config.rules.insert(rule.to_string(), RuleSeverityConfig::Warn);
    }
    config
}

#[test]
fn custom_line_length_config() {
    let mut config = default_config();
    config.max_line_length = 200;

    let source = format!("var x: String = \"{}\"\n", "a".repeat(150));
    let diagnostics = linter::lint_source(&source, "test.gd", &config);
    let line_length_diags: Vec<_> = diagnostics
        .iter()
        .filter(|d| d.rule == "format/max-line-length")
        .collect();
    assert!(line_length_diags.is_empty());
}

#[test]
fn static_var_screaming_case_accepted() {
    // Regression: static var with SCREAMING_SNAKE_CASE was flagged as a naming
    // violation and the auto-fix corrupted the line.
    let source = "static var THOUGHT_POIGNANCY: int = 5\nstatic var MY_CONSTANT: String = \"x\"\n";
    let config = default_config();
    let diagnostics = linter::lint_source(source, "test.gd", &config);
    let naming_diags: Vec<_> = diagnostics
        .iter()
        .filter(|d| d.rule == "naming/variable-name-snake-case")
        .collect();
    assert!(
        naming_diags.is_empty(),
        "static var with SCREAMING_SNAKE_CASE should be accepted, got: {:?}",
        naming_diags.iter().map(|d| &d.message).collect::<Vec<_>>()
    );
}

#[test]
fn to_snake_case_no_double_underscores() {
    // Regression: to_snake_case("THOUGHT_POIGNANCY") produced "thought__poignancy".
    let source = "var MyPascalVar: int = 1\n";
    let config = default_config();
    let diagnostics = linter::lint_source(source, "test.gd", &config);
    let fix_diag = diagnostics
        .iter()
        .find(|d| d.rule == "naming/variable-name-snake-case");
    assert!(fix_diag.is_some());
    let msg = &fix_diag.unwrap().message;
    assert!(
        !msg.contains("__"),
        "suggested name should not contain double underscores, got: {}",
        msg
    );
}

#[test]
fn max_line_length_counts_tabs_at_visual_width() {
    // Tabs should be counted at 4-column width, not 1 byte.
    // A tab + 97 chars = 101 visual columns (exceeds 100).
    // A tab + 96 chars = 100 visual columns (exactly at limit).
    let config = default_config();

    let at_limit = format!("\t{}\n", "a".repeat(96));
    let diags = linter::lint_source(&at_limit, "test.gd", &config);
    assert!(
        !diags.iter().any(|d| d.rule == "format/max-line-length"),
        "tab + 96 chars = 100 visual columns, should not trigger"
    );

    let over_limit = format!("\t{}\n", "a".repeat(97));
    let diags = linter::lint_source(&over_limit, "test.gd", &config);
    assert!(
        diags.iter().any(|d| d.rule == "format/max-line-length"),
        "tab + 97 chars = 101 visual columns, should trigger"
    );
}

#[test]
fn quality_max_function_length_suppressible() {
    // Build a function with 55 lines (over default limit of 50)
    let mut source =
        String::from("# gdstyle:ignore=quality/max-function-length\nfunc long_func():\n");
    for i in 0..55 {
        source.push_str(&format!("\tvar v{} = {}\n", i, i));
    }
    let config = default_config();
    let diagnostics = linter::lint_source(&source, "test.gd", &config);
    let quality: Vec<_> = diagnostics
        .iter()
        .filter(|d| d.rule == "quality/max-function-length")
        .collect();
    assert!(
        quality.is_empty(),
        "max-function-length should be suppressible with inline comment"
    );
}

#[test]
fn quality_max_parameters_suppressible() {
    let source = "func many_params(a: int, b: int, c: int, d: int, e: int, f: int, g: int):  # gdstyle:ignore=quality/max-parameters\n\tpass\n";
    let config = default_config();
    let diagnostics = linter::lint_source(source, "test.gd", &config);
    let quality: Vec<_> = diagnostics
        .iter()
        .filter(|d| d.rule == "quality/max-parameters")
        .collect();
    assert!(
        quality.is_empty(),
        "max-parameters should be suppressible with same-line comment"
    );
}

#[test]
fn naming_single_letter_class_name() {
    let source = "class_name A\nextends Node\n";
    let config = default_config();
    let diagnostics = linter::lint_source(source, "test.gd", &config);
    // 'A' is a valid PascalCase-ish name (debatable) but should not crash
    // The rule might flag it since is_pascal_case requires lowercase chars
    // Just ensure no panic
    assert!(diagnostics.iter().all(|d| !d.message.is_empty()));
}

#[test]
fn lexer_handles_unicode_identifiers() {
    let source = "var café = 1\nvar naïve = 2\nvar über = 3\n";
    let config = default_config();
    let diagnostics = linter::lint_source(source, "test.gd", &config);
    // Should not crash and should parse identifiers
    // The naming rules may flag them but should not panic
    for d in &diagnostics {
        assert!(!d.message.is_empty());
    }
}

#[test]
fn lexer_handles_crlf_line_endings() {
    let source = "extends Node\r\n\r\nvar x = 1\r\nvar y = 2\r\n";
    let config = default_config();
    let diagnostics = linter::lint_source(source, "test.gd", &config);
    // Should not crash or produce bogus diagnostics from \r characters
    // The \r should be silently skipped
    for d in &diagnostics {
        assert!(
            !d.message.contains('\r'),
            "diagnostic should not contain \\r"
        );
    }
}

#[test]
fn naming_single_letter_class_name_not_flagged() {
    let source = "class_name A\nextends Node\n";
    let config = default_config();
    let diagnostics = linter::lint_source(source, "test.gd", &config);
    let naming: Vec<_> = diagnostics
        .iter()
        .filter(|d| d.rule == "naming/class-name-pascal-case")
        .collect();
    assert!(
        naming.is_empty(),
        "single-letter class name 'A' should be valid PascalCase, got: {:?}",
        naming.iter().map(|d| &d.message).collect::<Vec<_>>()
    );
}

#[test]
fn quality_no_debug_print_off_by_default() {
    let config = default_config();
    let source = "func foo() -> void:\n\tprint(\"hello\")\n";
    let diagnostics = linter::lint_source(source, "test.gd", &config);
    assert!(
        !diagnostics
            .iter()
            .any(|d| d.rule == "quality/no-debug-print"),
        "no-debug-print should be off by default"
    );
}

#[test]
fn quality_no_debug_print_when_enabled() {
    let config = quality_config(&["quality/no-debug-print"]);
    let source =
        "func foo() -> void:\n\tprint(\"hello\")\n\tprints(\"a\", \"b\")\n\tprinterr(\"err\")\n";
    let diagnostics = linter::lint_source(source, "test.gd", &config);
    let hits: Vec<_> = diagnostics
        .iter()
        .filter(|d| d.rule == "quality/no-debug-print")
        .collect();
    assert_eq!(hits.len(), 3, "should detect 3 debug print calls");
}

#[test]
fn quality_no_debug_print_ignores_custom_funcs() {
    let config = quality_config(&["quality/no-debug-print"]);
    let source = "func foo() -> void:\n\tprint_score(100)\n";
    let diagnostics = linter::lint_source(source, "test.gd", &config);
    assert!(
        !diagnostics
            .iter()
            .any(|d| d.rule == "quality/no-debug-print"),
        "should not flag print_score"
    );
}

#[test]
fn quality_self_comparison_all_operators() {
    let config = default_config();
    let source = "\
func test() -> void:
\tvar a: int = 1
\tif a == a:
\t\tpass
\tif a != a:
\t\tpass
\tif a > a:
\t\tpass
\tif a >= a:
\t\tpass
\tif a < a:
\t\tpass
\tif a <= a:
\t\tpass
";
    let diagnostics = linter::lint_source(source, "test.gd", &config);
    let hits: Vec<_> = diagnostics
        .iter()
        .filter(|d| d.rule == "quality/self-comparison")
        .collect();
    assert_eq!(
        hits.len(),
        6,
        "should detect all 6 self-comparisons, got {}",
        hits.len()
    );
}

#[test]
fn quality_self_comparison_different_vars_ok() {
    let config = default_config();
    let source = "func test() -> void:\n\tif a == b:\n\t\tpass\n";
    let diagnostics = linter::lint_source(source, "test.gd", &config);
    assert!(
        !diagnostics
            .iter()
            .any(|d| d.rule == "quality/self-comparison"),
        "different variables should not trigger"
    );
}

#[test]
fn quality_no_self_assign_simple() {
    let config = default_config();
    let source = "func test() -> void:\n\tvar x: int = 5\n\tx = x\n";
    let diagnostics = linter::lint_source(source, "test.gd", &config);
    assert!(diagnostics
        .iter()
        .any(|d| d.rule == "quality/no-self-assign"));
}

#[test]
fn quality_no_self_assign_dot_access_ok() {
    let config = default_config();
    let source = "func test() -> void:\n\tx = x.normalized()\n";
    let diagnostics = linter::lint_source(source, "test.gd", &config);
    assert!(
        !diagnostics
            .iter()
            .any(|d| d.rule == "quality/no-self-assign"),
        "x = x.method() should not trigger"
    );
}

#[test]
fn quality_no_self_assign_lhs_property_rhs_local_does_not_trigger() {
    // Regression for a false positive reported in the wild:
    // `moon.size = size * (.08 + 0.035 * _moon_value)` was being flagged
    // because the rule used a 3-token sliding window and only saw matching
    // `size` identifiers on both sides of `=`, ignoring that the LHS is
    // actually the property access `moon.size`.
    let config = default_config();
    let source = "func test() -> void:\n\tmoon.size = size * 0.5\n";
    let diagnostics = linter::lint_source(source, "test.gd", &config);
    assert!(
        !diagnostics
            .iter()
            .any(|d| d.rule == "quality/no-self-assign"),
        "moon.size = size * 0.5 must not trigger (different paths)"
    );
}

#[test]
fn quality_no_self_assign_uses_lhs_in_rhs_expression_does_not_trigger() {
    // `x = x + 1` is not a self-assignment, it reads x and writes a new
    // value. The rule must only flag pure x = x no-ops.
    let config = default_config();
    let source = "func test() -> void:\n\tvar x: int = 5\n\tx = x + 1\n";
    let diagnostics = linter::lint_source(source, "test.gd", &config);
    assert!(
        !diagnostics
            .iter()
            .any(|d| d.rule == "quality/no-self-assign"),
        "x = x + 1 must not trigger (uses x in expression)"
    );
}

#[test]
fn quality_no_self_assign_self_qualified_different_path_does_not_trigger() {
    // self.position and position are different paths even when the trailing
    // segment matches.
    let config = default_config();
    let source = "func test() -> void:\n\tself.position = position\n";
    let diagnostics = linter::lint_source(source, "test.gd", &config);
    assert!(
        !diagnostics
            .iter()
            .any(|d| d.rule == "quality/no-self-assign"),
        "self.position = position must not trigger (different paths)"
    );
}

#[test]
fn quality_no_self_assign_matching_dot_chain_triggers() {
    // `obj.foo = obj.foo` IS a real self-assign and should still be flagged.
    let config = default_config();
    let source = "func test() -> void:\n\tobj.foo = obj.foo\n";
    let diagnostics = linter::lint_source(source, "test.gd", &config);
    assert!(
        diagnostics
            .iter()
            .any(|d| d.rule == "quality/no-self-assign"),
        "obj.foo = obj.foo must still trigger (same path on both sides)"
    );
}

#[test]
fn quality_no_self_assign_deep_chain_triggers() {
    // Multi-level chains should also work both ways.
    let config = default_config();
    let source = "func test() -> void:\n\tself.player.health = self.player.health\n";
    let diagnostics = linter::lint_source(source, "test.gd", &config);
    assert!(
        diagnostics
            .iter()
            .any(|d| d.rule == "quality/no-self-assign"),
        "self.player.health = self.player.health must trigger"
    );
}

#[test]
fn quality_no_self_assign_indexed_does_not_trigger() {
    // arr[i] = arr[i] is an array element assignment; LHS chain isn't a
    // pure identifier dotted path, so we conservatively don't flag it.
    let config = default_config();
    let source = "func test() -> void:\n\tarr[i] = arr[i]\n";
    let diagnostics = linter::lint_source(source, "test.gd", &config);
    assert!(
        !diagnostics
            .iter()
            .any(|d| d.rule == "quality/no-self-assign"),
        "arr[i] = arr[i] must not trigger (subscript, not dotted chain)"
    );
}

#[test]
fn quality_no_self_assign_walrus_does_not_trigger() {
    // `var x := x` would have `Identifier(x) Colon Assign Identifier(x)` —
    // the LHS chain walk from `=` lands on Colon and bails, so we do not
    // flag inferred-type declarations like `var x := some_value`.
    let config = default_config();
    let source = "func test() -> void:\n\tvar x := 5\n";
    let diagnostics = linter::lint_source(source, "test.gd", &config);
    assert!(
        !diagnostics
            .iter()
            .any(|d| d.rule == "quality/no-self-assign"),
        ":= inferred declaration must not trigger"
    );
}

#[test]
fn quality_duplicate_dict_key_detected() {
    let config = default_config();
    let source = "func test() -> Dictionary:\n\treturn {\"a\": 1, \"b\": 2, \"a\": 3}\n";
    let diagnostics = linter::lint_source(source, "test.gd", &config);
    assert!(diagnostics
        .iter()
        .any(|d| d.rule == "quality/duplicate-dict-key"));
}

#[test]
fn quality_duplicate_dict_key_nested_ok() {
    let config = default_config();
    let source = "\
func test() -> Dictionary:
\treturn {\"a\": {\"a\": 1}, \"b\": 2}
";
    let diagnostics = linter::lint_source(source, "test.gd", &config);
    assert!(
        !diagnostics
            .iter()
            .any(|d| d.rule == "quality/duplicate-dict-key"),
        "same key in nested dict should not trigger on outer"
    );
}

#[test]
fn quality_duplicated_load_detected() {
    let config = default_config();
    let source = "\
var a: PackedScene = preload(\"res://scene.tscn\")
var b: PackedScene = preload(\"res://scene.tscn\")
";
    let diagnostics = linter::lint_source(source, "test.gd", &config);
    assert!(diagnostics
        .iter()
        .any(|d| d.rule == "quality/duplicated-load"));
}

#[test]
fn quality_duplicated_load_different_paths_ok() {
    let config = default_config();
    let source = "\
var a: PackedScene = preload(\"res://scene_a.tscn\")
var b: PackedScene = preload(\"res://scene_b.tscn\")
";
    let diagnostics = linter::lint_source(source, "test.gd", &config);
    assert!(
        !diagnostics
            .iter()
            .any(|d| d.rule == "quality/duplicated-load"),
        "different paths should not trigger"
    );
}

#[test]
fn quality_no_else_return_simple() {
    let config = default_config();
    let source = "\
func foo(x: int) -> int:
\tif x > 0:
\t\treturn 1
\telse:
\t\treturn -1
";
    let diagnostics = linter::lint_source(source, "test.gd", &config);
    assert!(diagnostics
        .iter()
        .any(|d| d.rule == "quality/no-else-return"));
}

#[test]
fn quality_no_else_return_elif_chain() {
    let config = default_config();
    let source = "\
func foo(x: int) -> String:
\tif x > 100:
\t\treturn \"high\"
\telif x > 50:
\t\treturn \"medium\"
\telse:
\t\treturn \"low\"
";
    let diagnostics = linter::lint_source(source, "test.gd", &config);
    let hits: Vec<_> = diagnostics
        .iter()
        .filter(|d| d.rule == "quality/no-else-return")
        .collect();
    // Both `elif` and `else` should be flagged
    assert!(
        hits.len() >= 2,
        "should detect elif and else after return, got {}",
        hits.len()
    );
}

#[test]
fn quality_no_else_return_no_return_ok() {
    let config = default_config();
    let source = "\
func foo(x: int) -> void:
\tif x > 0:
\t\tvar y: int = x
\t\ty += 1
\telse:
\t\tvar z: int = -x
\t\tz += 1
";
    let diagnostics = linter::lint_source(source, "test.gd", &config);
    assert!(
        !diagnostics
            .iter()
            .any(|d| d.rule == "quality/no-else-return"),
        "no return in if block, else is fine"
    );
}

#[test]
fn quality_unreachable_after_return() {
    let config = default_config();
    let source = "\
func foo() -> int:
\treturn 42
\tvar x: int = 0
";
    let diagnostics = linter::lint_source(source, "test.gd", &config);
    assert!(diagnostics
        .iter()
        .any(|d| d.rule == "quality/unreachable-code"));
}

#[test]
fn quality_unreachable_after_break() {
    let config = default_config();
    let source = "\
func foo() -> void:
\tfor i: int in range(10):
\t\tbreak
\t\tvar x: int = i
";
    let diagnostics = linter::lint_source(source, "test.gd", &config);
    assert!(diagnostics
        .iter()
        .any(|d| d.rule == "quality/unreachable-code"));
}

#[test]
fn quality_unreachable_after_continue() {
    let config = default_config();
    let source = "\
func foo() -> void:
\tfor i: int in range(10):
\t\tcontinue
\t\tvar x: int = i
";
    let diagnostics = linter::lint_source(source, "test.gd", &config);
    assert!(diagnostics
        .iter()
        .any(|d| d.rule == "quality/unreachable-code"));
}

#[test]
fn quality_unreachable_else_not_flagged() {
    let config = default_config();
    let source = "\
func foo(x: int) -> int:
\tif x > 0:
\t\treturn 1
\telse:
\t\treturn -1
";
    let diagnostics = linter::lint_source(source, "test.gd", &config);
    assert!(
        !diagnostics
            .iter()
            .any(|d| d.rule == "quality/unreachable-code"),
        "else after return is not unreachable code"
    );
}

#[test]
fn quality_await_in_for_loop() {
    let config = default_config();
    let source = "\
func foo() -> void:
\tfor i: int in range(10):
\t\tawait get_tree().create_timer(1.0).timeout
";
    let diagnostics = linter::lint_source(source, "test.gd", &config);
    assert!(diagnostics
        .iter()
        .any(|d| d.rule == "quality/await-in-loop"));
}

#[test]
fn quality_await_in_while_loop() {
    let config = default_config();
    let source = "\
func foo() -> void:
\twhile true:
\t\tawait get_tree().process_frame
";
    let diagnostics = linter::lint_source(source, "test.gd", &config);
    assert!(diagnostics
        .iter()
        .any(|d| d.rule == "quality/await-in-loop"));
}

#[test]
fn quality_await_in_nested_loop() {
    let config = default_config();
    let source = "\
func foo() -> void:
\tfor i: int in range(10):
\t\tfor j: int in range(10):
\t\t\tawait get_tree().create_timer(0.1).timeout
";
    let diagnostics = linter::lint_source(source, "test.gd", &config);
    assert!(diagnostics
        .iter()
        .any(|d| d.rule == "quality/await-in-loop"));
}

#[test]
fn quality_await_outside_loop_ok() {
    let config = default_config();
    let source = "\
func foo() -> void:
\tawait get_tree().create_timer(1.0).timeout
";
    let diagnostics = linter::lint_source(source, "test.gd", &config);
    assert!(
        !diagnostics
            .iter()
            .any(|d| d.rule == "quality/await-in-loop"),
        "await outside loop should not trigger"
    );
}

#[test]
fn quality_allocation_in_loop_detected() {
    let config = default_config();
    let source = "\
func foo() -> void:
\tfor i: int in range(10):
\t\tvar n: Node = Node.new()
\t\tadd_child(n)
";
    let diagnostics = linter::lint_source(source, "test.gd", &config);
    assert!(diagnostics
        .iter()
        .any(|d| d.rule == "quality/allocation-in-loop"));
}

#[test]
fn quality_allocation_outside_loop_ok() {
    let config = default_config();
    let source = "\
func foo() -> void:
\tvar n: Node = Node.new()
\tadd_child(n)
";
    let diagnostics = linter::lint_source(source, "test.gd", &config);
    assert!(
        !diagnostics
            .iter()
            .any(|d| d.rule == "quality/allocation-in-loop"),
        "allocation outside loop should not trigger"
    );
}

#[test]
fn quality_process_get_node_dollar() {
    let config = default_config();
    let source = "\
func _process(delta: float) -> void:
\tvar label: Label = $HUD/Label
\tlabel.text = str(delta)
";
    let diagnostics = linter::lint_source(source, "test.gd", &config);
    assert!(diagnostics
        .iter()
        .any(|d| d.rule == "quality/process-get-node"));
}

#[test]
fn quality_process_get_node_call() {
    let config = default_config();
    let source = "\
func _physics_process(delta: float) -> void:
\tvar body: Node = get_node(\"Body\")
\tbody.position.x += delta
";
    let diagnostics = linter::lint_source(source, "test.gd", &config);
    assert!(diagnostics
        .iter()
        .any(|d| d.rule == "quality/process-get-node"));
}

#[test]
fn quality_process_get_node_ready_ok() {
    let config = default_config();
    let source = "\
func _ready() -> void:
\tvar label: Label = $HUD/Label
\tlabel.text = \"ready\"
";
    let diagnostics = linter::lint_source(source, "test.gd", &config);
    assert!(
        !diagnostics
            .iter()
            .any(|d| d.rule == "quality/process-get-node"),
        "get_node in _ready should not trigger"
    );
}

#[test]
fn quality_process_get_node_modulo_not_flagged() {
    // Regression: `a % b` modulo inside _process was misread as a
    // `%UniqueNode` reference because the check looked at the char before
    // `%`. A unique-node ref is `%` followed by an identifier/quote.
    let config = default_config();
    let source = "\
func _process(delta: float) -> void:
\tvar phase: int = frame % 60
\tposition.x = phase * delta
";
    let diagnostics = linter::lint_source(source, "test.gd", &config);
    assert!(
        !diagnostics
            .iter()
            .any(|d| d.rule == "quality/process-get-node"),
        "modulo in _process must not be flagged as a node lookup"
    );
}

#[test]
fn quality_process_get_node_unique_node_flagged() {
    // A genuine `%UniqueName` lookup in _process should still be flagged.
    let config = default_config();
    let source = "\
func _process(_delta: float) -> void:
\tvar bar = %HealthBar
\tbar.value += 1
";
    let diagnostics = linter::lint_source(source, "test.gd", &config);
    assert!(
        diagnostics
            .iter()
            .any(|d| d.rule == "quality/process-get-node"),
        "%UniqueName lookup in _process should be flagged"
    );
}

#[test]
fn quality_unnecessary_pass_with_other_code() {
    let config = default_config();
    let source = "\
func foo() -> void:
\tvar x: int = 5
\tx += 1
\tpass
";
    let diagnostics = linter::lint_source(source, "test.gd", &config);
    assert!(diagnostics
        .iter()
        .any(|d| d.rule == "quality/unnecessary-pass"));
}

#[test]
fn quality_unnecessary_pass_alone_ok() {
    let config = default_config();
    let source = "func foo() -> void:\n\tpass\n";
    let diagnostics = linter::lint_source(source, "test.gd", &config);
    assert!(
        !diagnostics
            .iter()
            .any(|d| d.rule == "quality/unnecessary-pass"),
        "lone pass should not trigger"
    );
}

#[test]
fn quality_unnecessary_pass_in_match_arm_ok() {
    // A `pass` that is the sole body of a match arm is required: a match
    // arm cannot be empty. It must not be flagged even though the function
    // has other statements.
    let config = default_config();
    let source = "\
func handle(state: int) -> void:
\tmatch state:
\t\t0:
\t\t\tpass
\t\t1:
\t\t\tdo_something()
\t\t_:
\t\t\tpass
";
    let diagnostics = linter::lint_source(source, "test.gd", &config);
    assert!(
        !diagnostics
            .iter()
            .any(|d| d.rule == "quality/unnecessary-pass"),
        "pass as a lone match-arm body must not be flagged; got: {:?}",
        diagnostics
            .iter()
            .filter(|d| d.rule == "quality/unnecessary-pass")
            .map(|d| d.span.line)
            .collect::<Vec<_>>()
    );
}

#[test]
fn quality_unnecessary_pass_in_empty_if_body_ok() {
    // `pass` as the only statement of an if/else branch is required.
    let config = default_config();
    let source = "\
func foo(flag: bool) -> void:
\tif flag:
\t\tpass
\telse:
\t\tprint(\"no\")
";
    let diagnostics = linter::lint_source(source, "test.gd", &config);
    assert!(
        !diagnostics
            .iter()
            .any(|d| d.rule == "quality/unnecessary-pass"),
        "pass as a lone if-branch body must not be flagged"
    );
}

#[test]
fn quality_type_hint_off_by_default() {
    let config = default_config();
    let source = "var speed = 10.0\n";
    let diagnostics = linter::lint_source(source, "test.gd", &config);
    assert!(
        !diagnostics.iter().any(|d| d.rule == "quality/type-hint"),
        "type-hint should be off by default"
    );
}

#[test]
fn quality_type_hint_when_enabled() {
    let config = quality_config(&["quality/type-hint"]);
    let source = "\
var speed = 10.0
var health: int = 100
func foo(x, y: int):
\tpass
";
    let diagnostics = linter::lint_source(source, "test.gd", &config);
    let hits: Vec<_> = diagnostics
        .iter()
        .filter(|d| d.rule == "quality/type-hint")
        .collect();
    // speed (no type), foo return type, param x (no type) = 3
    assert!(
        hits.len() >= 3,
        "should detect at least 3 missing type hints, got {}",
        hits.len()
    );
}

#[test]
fn quality_empty_function_off_by_default() {
    let config = default_config();
    let source = "func foo() -> void:\n\tpass\n";
    let diagnostics = linter::lint_source(source, "test.gd", &config);
    assert!(
        !diagnostics
            .iter()
            .any(|d| d.rule == "quality/empty-function"),
        "empty-function should be off by default"
    );
}

#[test]
fn quality_empty_function_when_enabled() {
    let config = quality_config(&["quality/empty-function"]);
    let source = "func foo() -> void:\n\tpass\n";
    let diagnostics = linter::lint_source(source, "test.gd", &config);
    assert!(diagnostics
        .iter()
        .any(|d| d.rule == "quality/empty-function"));
}

#[test]
fn quality_max_class_variables_exceeded() {
    let config = default_config();
    let mut source = String::from("class_name BigClass\nextends Node\n\n");
    for i in 0..20 {
        source.push_str(&format!("var v_{}: int = {}\n", i, i));
    }
    source.push_str("\nfunc _ready() -> void:\n\tpass\n");
    let diagnostics = linter::lint_source(&source, "test.gd", &config);
    assert!(diagnostics
        .iter()
        .any(|d| d.rule == "quality/max-class-variables"));
}

#[test]
fn quality_max_public_methods_exceeded() {
    let config = default_config();
    let mut source = String::from("class_name BigApi\nextends Node\n\n");
    for i in 0..25 {
        source.push_str(&format!("func method_{}() -> void:\n\tpass\n\n", i));
    }
    let diagnostics = linter::lint_source(&source, "test.gd", &config);
    assert!(diagnostics
        .iter()
        .any(|d| d.rule == "quality/max-public-methods"));
}

#[test]
fn quality_max_inner_classes_exceeded() {
    let config = default_config();
    let mut source = String::from("class_name Outer\nextends Node\n\n");
    for i in 0..8 {
        source.push_str(&format!("class Inner{} extends RefCounted:\n\tpass\n\n", i));
    }
    let diagnostics = linter::lint_source(&source, "test.gd", &config);
    assert!(diagnostics
        .iter()
        .any(|d| d.rule == "quality/max-inner-classes"));
}

#[test]
fn quality_max_nesting_depth_within_limit_ok() {
    let config = default_config();
    let source = "\
func foo() -> void:
\tif true:
\t\tif true:
\t\t\tpass
";
    let diagnostics = linter::lint_source(source, "test.gd", &config);
    assert!(
        !diagnostics
            .iter()
            .any(|d| d.rule == "quality/max-nesting-depth"),
        "depth 2 should be within default limit of 4"
    );
}

#[test]
fn quality_max_returns_within_limit_ok() {
    let config = default_config();
    let source = "\
func foo(x: int) -> int:
\tif x > 0:
\t\treturn 1
\treturn 0
";
    let diagnostics = linter::lint_source(source, "test.gd", &config);
    assert!(
        !diagnostics.iter().any(|d| d.rule == "quality/max-returns"),
        "2 returns should be within default limit of 6"
    );
}

#[test]
fn quality_max_branches_within_limit_ok() {
    let config = default_config();
    let source = "\
func foo(x: int) -> void:
\tif x == 1:
\t\tpass
\tif x == 2:
\t\tpass
";
    let diagnostics = linter::lint_source(source, "test.gd", &config);
    assert!(
        !diagnostics.iter().any(|d| d.rule == "quality/max-branches"),
        "2 branches should be within default limit of 8"
    );
}

#[test]
fn quality_max_local_variables_within_limit_ok() {
    let config = default_config();
    let source = "\
func foo() -> void:
\tvar a: int = 1
\tvar b: int = 2
\tvar c: int = 3
";
    let diagnostics = linter::lint_source(source, "test.gd", &config);
    assert!(
        !diagnostics
            .iter()
            .any(|d| d.rule == "quality/max-local-variables"),
        "3 locals should be within default limit of 10"
    );
}
