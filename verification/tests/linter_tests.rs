use lib::config::Config;
use lib::linter::lint_source;

#[test]
fn lint_clean_source() {
    let source = r#"class_name Player
extends CharacterBody2D

signal health_changed(old_value: int, new_value: int)

const MAX_SPEED: float = 200.0

@export var speed: float = 100.0

var health: int = 100

@onready var label: Label = $Label

func _ready() -> void:
	pass

func take_damage(amount: int) -> void:
	pass
"#;
    let config = Config::default();
    let diagnostics = lint_source(source, "player.gd", &config);
    assert!(
        diagnostics.is_empty(),
        "clean source should produce no diagnostics, got: {:?}",
        diagnostics
    );
}

#[test]
fn lint_detects_bad_class_name() {
    let source = "class_name my_player\n";
    let config = Config::default();
    let diagnostics = lint_source(source, "test.gd", &config);
    assert!(diagnostics
        .iter()
        .any(|d| d.rule == "naming/class-name-pascal-case"));
}

#[test]
fn lint_detects_bad_function_name() {
    let source = "func takeDamage() -> void:\n\tpass\n";
    let config = Config::default();
    let diagnostics = lint_source(source, "test.gd", &config);
    assert!(diagnostics
        .iter()
        .any(|d| d.rule == "naming/function-name-snake-case"));
}

#[test]
fn lint_surfaces_unterminated_string_as_error() {
    let source = "var x = \"oops\nvar y = 5\n";
    let config = Config::default();
    let diagnostics = lint_source(source, "test.gd", &config);
    let lex_errors: Vec<_> = diagnostics
        .iter()
        .filter(|d| d.rule == "syntax/lex-error")
        .collect();
    assert!(
        !lex_errors.is_empty(),
        "unterminated string must produce a syntax/lex-error diagnostic"
    );
    assert_eq!(lex_errors[0].severity, lib::diagnostic::Severity::Error);
}

#[test]
fn lint_detects_trailing_whitespace() {
    let source = "var x = 5   \n";
    let config = Config::default();
    let diagnostics = lint_source(source, "test.gd", &config);
    assert!(diagnostics
        .iter()
        .any(|d| d.rule == "format/trailing-whitespace"));
}

#[test]
fn lint_detects_long_line() {
    let long_line = format!("var x = \"{}\"", "a".repeat(110));
    let source = format!("{}\n", long_line);
    let config = Config::default();
    let diagnostics = lint_source(&source, "test.gd", &config);
    assert!(diagnostics
        .iter()
        .any(|d| d.rule == "format/max-line-length"));
}

#[test]
fn inline_suppression_works() {
    let source = "class_name my_player  # gdstyle:ignore=naming/class-name-pascal-case\n";
    let config = Config::default();
    let diagnostics = lint_source(source, "test.gd", &config);
    assert!(
        !diagnostics
            .iter()
            .any(|d| d.rule == "naming/class-name-pascal-case"),
        "suppressed rule should not appear"
    );
}

#[test]
fn standalone_suppression_works() {
    let source = "# gdstyle:ignore=naming/class-name-pascal-case\nclass_name my_player\n";
    let config = Config::default();
    let diagnostics = lint_source(source, "test.gd", &config);
    assert!(
        !diagnostics
            .iter()
            .any(|d| d.rule == "naming/class-name-pascal-case"),
        "suppressed rule should not appear"
    );
}

/// Build a 25-public-method class for the file-scope tests below.
/// We rebuild it inline because every test needs to start from a
/// known-clean source — sharing a `const` across tests would make
/// failures harder to trace.
fn bloated_class(prelude: &str) -> String {
    let mut s = String::from(prelude);
    s.push_str("class_name Bloated\nextends Node\n");
    for i in 0..25 {
        s.push_str(&format!("\nfunc method_{}() -> void:\n\tpass\n", i));
    }
    s
}

#[test]
fn file_suppression_silences_class_level_rule() {
    // Regression for the user-reported gap: a `# gdstyle:ignore`
    // standalone above the class header doesn't catch
    // `quality/max-public-methods` because the diagnostic anchors
    // at line 1 and the standalone form suppresses the NEXT line.
    // The file-level directive sidesteps that mismatch entirely.
    let source = bloated_class("# gdstyle:ignore-file=quality/max-public-methods\n");
    let config = Config::default();
    let diagnostics = lint_source(&source, "test.gd", &config);
    assert!(
        !diagnostics
            .iter()
            .any(|d| d.rule == "quality/max-public-methods"),
        "file-level suppression should silence max-public-methods, got: {:?}",
        diagnostics
    );
}

#[test]
fn file_suppression_bare_form_silences_everything() {
    // `# gdstyle:ignore-file` (no `=...`) drops every diagnostic
    // in the file — for generated code or third-party drops.
    let source = "# gdstyle:ignore-file\nclass_name my_bad_name\nvar AlsoBad: int = 5\n";
    let config = Config::default();
    let diagnostics = lint_source(source, "test.gd", &config);
    assert!(
        diagnostics.is_empty(),
        "bare ignore-file should drop everything, got: {:?}",
        diagnostics
    );
}

#[test]
fn file_suppression_anywhere_in_file() {
    // The directive doesn't have to live on line 1 — anywhere in
    // the file works. This matters for files that already start
    // with a class-level `##` docstring before the suppression.
    let mut source = String::from("## Docstring for Bloated.\n");
    source.push_str(&bloated_class(""));
    source.push_str("\n# gdstyle:ignore-file=quality/max-public-methods\n");
    let config = Config::default();
    let diagnostics = lint_source(&source, "test.gd", &config);
    assert!(
        !diagnostics
            .iter()
            .any(|d| d.rule == "quality/max-public-methods"),
        "file-level suppression must apply regardless of position, got: {:?}",
        diagnostics
    );
}

#[test]
fn file_suppression_narrows_to_listed_rules() {
    // A scoped `# gdstyle:ignore-file=...` only silences the
    // listed rules — others still fire. The unlisted naming rule
    // on `BadName` must remain.
    let source = "# gdstyle:ignore-file=quality/max-public-methods\nclass_name Bloated\nextends Node\nvar BadName: int = 5\n";
    let config = Config::default();
    let diagnostics = lint_source(source, "test.gd", &config);
    assert!(
        diagnostics
            .iter()
            .any(|d| d.rule == "naming/variable-name-snake-case"),
        "scoped ignore-file should NOT silence unlisted rules, got: {:?}",
        diagnostics
    );
}

#[test]
fn file_suppression_does_not_swallow_per_line_directive() {
    // Regression guard: the `ignore-file` parsing path runs before
    // `ignore` and `continue`s when it matches. Make sure a
    // regular per-line `# gdstyle:ignore` directive still routes
    // through the per-line path.
    let source = "# gdstyle:ignore=naming/class-name-pascal-case\nclass_name my_player\n";
    let config = Config::default();
    let diagnostics = lint_source(source, "test.gd", &config);
    assert!(
        !diagnostics
            .iter()
            .any(|d| d.rule == "naming/class-name-pascal-case"),
        "per-line directive still works alongside ignore-file support"
    );
}

#[test]
fn suppress_all_rules_on_line() {
    let source = "# gdstyle:ignore\nclass_name my_player\n";
    let config = Config::default();
    let diagnostics = lint_source(source, "test.gd", &config);
    // All diagnostics on line 2 should be suppressed.
    let line_2_diags: Vec<_> = diagnostics.iter().filter(|d| d.span.line == 2).collect();
    assert!(line_2_diags.is_empty());
}

#[test]
fn config_disables_rule() {
    let source = "class_name my_player\n";
    let mut config = Config::default();
    config.rules.insert(
        "naming/class-name-pascal-case".to_string(),
        lib::config::RuleSeverityConfig::Off,
    );
    let diagnostics = lint_source(source, "test.gd", &config);
    assert!(!diagnostics
        .iter()
        .any(|d| d.rule == "naming/class-name-pascal-case"));
}

#[test]
fn lint_real_world_script() {
    let source = r#"@tool
class_name StateMachine
extends Node
## Hierarchical state machine for the player.
##
## Initializes states and delegates engine callbacks to the state.

signal state_changed(previous: String, current: String)

@export var initial_state: Node

var is_active: bool = true

@onready var _state: Node = $State

func _init() -> void:
	add_to_group("state_machine")

func _ready() -> void:
	state_changed.connect(_on_state_changed)

func _physics_process(delta: float) -> void:
	_state._physics_process(delta)

func transition_to(target_path: String) -> void:
	pass

func _on_state_changed(previous: String, current: String) -> void:
	pass
"#;
    let config = Config::default();
    let diagnostics = lint_source(source, "state_machine.gd", &config);
    assert!(
        diagnostics.is_empty(),
        "real-world clean script should have no issues, got: {:?}",
        diagnostics
    );
}
