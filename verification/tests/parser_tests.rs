use lib::ast::ClassMember;
use lib::lexer::Lexer;
use lib::parser::Parser;

fn parse_source(source: &str) -> Vec<ClassMember> {
    let mut lexer = Lexer::new(source);
    let tokens = lexer.tokenize();
    Parser::new(&tokens).parse()
}

#[test]
fn parse_class_name_and_extends() {
    let members = parse_source("class_name Player\nextends CharacterBody2D\n");
    assert!(
        matches!(members[0], ClassMember::ClassNameDecl { ref name, .. } if name == "Player")
    );
    assert!(
        matches!(members[1], ClassMember::ExtendsDecl { ref base, .. } if base == "CharacterBody2D")
    );
}

#[test]
fn parse_signal_without_params() {
    let members = parse_source("signal player_died\n");
    assert!(
        matches!(members[0], ClassMember::Signal { ref name, ref parameters, .. }
        if name == "player_died" && parameters.is_empty())
    );
}

#[test]
fn parse_signal_with_params() {
    let members = parse_source("signal health_changed(old_value: int, new_value: int)\n");
    if let ClassMember::Signal {
        ref name,
        ref parameters,
        ..
    } = members[0]
    {
        assert_eq!(name, "health_changed");
        assert_eq!(parameters.len(), 2);
        assert_eq!(parameters[0].name, "old_value");
        assert_eq!(parameters[1].name, "new_value");
    } else {
        panic!("expected Signal");
    }
}

#[test]
fn parse_enum() {
    let members = parse_source("enum State { IDLE, WALKING, RUNNING }\n");
    if let ClassMember::Enum {
        ref name,
        ref members,
        ..
    } = members[0]
    {
        assert_eq!(name.as_deref(), Some("State"));
        assert_eq!(members.len(), 3);
        assert_eq!(members[0].name, "IDLE");
        assert_eq!(members[1].name, "WALKING");
        assert_eq!(members[2].name, "RUNNING");
    } else {
        panic!("expected Enum");
    }
}

#[test]
fn parse_constant() {
    let members = parse_source("const MAX_SPEED: float = 200.0\n");
    if let ClassMember::Constant {
        ref name,
        ref type_hint,
        ..
    } = members[0]
    {
        assert_eq!(name, "MAX_SPEED");
        assert_eq!(type_hint.as_deref(), Some("float"));
    } else {
        panic!("expected Constant");
    }
}

#[test]
fn parse_typed_collection_hint_has_canonical_spacing() {
    let members = parse_source("var scores: Dictionary[int, String] = {}\n");
    if let ClassMember::Variable { ref type_hint, .. } = members[0] {
        assert_eq!(type_hint.as_deref(), Some("Dictionary[int, String]"));
    } else {
        panic!("expected Variable");
    }
    let arr = parse_source("var xs: Array[Vector2] = []\n");
    if let ClassMember::Variable { ref type_hint, .. } = arr[0] {
        assert_eq!(type_hint.as_deref(), Some("Array[Vector2]"));
    } else {
        panic!("expected Variable");
    }
}

#[test]
fn parse_variable_with_annotation() {
    let members = parse_source("@export var speed: float = 200.0\n");
    if let ClassMember::Variable {
        ref name,
        ref annotations,
        ..
    } = members[0]
    {
        assert_eq!(name, "speed");
        assert!(annotations.iter().any(|a| a.name == "export"));
    } else {
        panic!("expected Variable, got {:?}", members[0]);
    }
}

#[test]
fn parse_onready_variable() {
    let members = parse_source("@onready var label: Label = $Label\n");
    if let ClassMember::Variable {
        ref name,
        ref annotations,
        ..
    } = members[0]
    {
        assert_eq!(name, "label");
        assert!(annotations.iter().any(|a| a.name == "onready"));
    } else {
        panic!("expected Variable");
    }
}

#[test]
fn parse_function() {
    let members = parse_source("func take_damage(amount: int) -> void:\n\tpass\n");
    if let ClassMember::Function {
        ref name,
        ref parameters,
        ref return_type,
        ..
    } = members[0]
    {
        assert_eq!(name, "take_damage");
        assert_eq!(parameters.len(), 1);
        assert_eq!(parameters[0].name, "amount");
        assert_eq!(return_type.as_deref(), Some("void"));
    } else {
        panic!("expected Function");
    }
}

#[test]
fn parse_static_function() {
    let members = parse_source("static func create() -> void:\n\tpass\n");
    if let ClassMember::Function {
        ref name,
        is_static,
        ..
    } = members[0]
    {
        assert_eq!(name, "create");
        assert!(is_static);
    } else {
        panic!("expected static Function");
    }
}

#[test]
fn parse_doc_comment() {
    let members = parse_source("## This is a doc comment\n");
    assert!(matches!(members[0], ClassMember::DocComment { .. }));
}

#[test]
fn parse_tool_annotation() {
    let members = parse_source("@tool\n");
    assert!(matches!(members[0], ClassMember::ToolAnnotation { .. }));
}

#[test]
fn parse_ordering_categories() {
    let members = parse_source(
        "\
@tool
class_name Test
extends Node
signal test_signal
enum State { IDLE }
const MAX = 10
static var count: int = 0
@export var speed: float = 1.0
var health: int = 100
@onready var label: Label = $Label
func _ready() -> void:
\tpass
func custom_method() -> void:
\tpass
",
    );

    // Verify ordering categories are ascending.
    let mut last_category = 0;
    for member in &members {
        let cat = member.ordering_category();
        if cat == usize::MAX {
            continue; // Skip comments/blanks.
        }
        assert!(
            cat >= last_category,
            "ordering violation: {} (cat {}) after category {}",
            member.category_name(),
            cat,
            last_category
        );
        last_category = cat;
    }
}

#[test]
fn parse_full_script() {
    let source = r#"@tool
class_name StateMachine
extends Node
## Hierarchical state machine.

signal state_changed(previous: String, new: String)

enum State { IDLE, RUNNING }

const MAX_STATES: int = 10

@export var initial_state: Node

var is_active: bool = true

@onready var _state: Node = $State

func _ready() -> void:
	pass

func transition_to(target: String) -> void:
	pass
"#;
    let members = parse_source(source);
    // Should parse without panics and have at least the expected members.
    let class_name = members
        .iter()
        .find(|m| matches!(m, ClassMember::ClassNameDecl { .. }));
    assert!(class_name.is_some());

    let signals: Vec<_> = members
        .iter()
        .filter(|m| matches!(m, ClassMember::Signal { .. }))
        .collect();
    assert_eq!(signals.len(), 1);

    let functions: Vec<_> = members
        .iter()
        .filter(|m| matches!(m, ClassMember::Function { .. }))
        .collect();
    assert_eq!(functions.len(), 2);
}

#[test]
fn pending_annotation_before_class_name_becomes_class_annotation() {
    let members = parse_source("@abstract\nclass_name Shape\n");
    assert_eq!(members.len(), 2);
    assert!(
        matches!(members[0], ClassMember::ClassAnnotation { ref name, .. } if name == "abstract")
    );
    assert!(matches!(members[1], ClassMember::ClassNameDecl { ref name, .. } if name == "Shape"));
}

#[test]
fn annotation_left_at_the_end_becomes_class_annotation() {
    let members = parse_source("@abstract\n");
    assert_eq!(members.len(), 1);
    assert!(
        matches!(members[0], ClassMember::ClassAnnotation { ref name, .. } if name == "abstract")
    );
}

#[test]
fn comment_after_a_body_is_its_own_member() {
    let members = parse_source("func f():\n\tvar a = 1\n\tvar b = 2\n# after\nvar c = 3\n");
    assert_eq!(members.len(), 3);
    assert!(matches!(
        members[0],
        ClassMember::Function { ref name, body_line_count, .. } if name == "f" && body_line_count == 2
    ));
    assert!(matches!(members[1], ClassMember::Comment { ref text, .. } if text.contains("after")));
    assert!(matches!(members[2], ClassMember::Variable { ref name, .. } if name == "c"));
}

#[test]
fn every_top_level_comment_is_kept() {
    let members = parse_source("# one\nvar a = 1\n# two\nvar b = 2\n# three\n");
    let comments = members
        .iter()
        .filter(|m| matches!(m, ClassMember::Comment { .. }))
        .count();
    assert_eq!(comments, 3);
    assert_eq!(members.len(), 5);
}

#[test]
fn inner_class_holds_its_body_members() {
    let members = parse_source("class Inner:\n\tvar a = 1\n\tfunc f():\n\t\tpass\nvar b = 2\n");
    assert_eq!(members.len(), 2);
    if let ClassMember::InnerClass {
        ref name,
        ref members,
        ..
    } = members[0]
    {
        assert_eq!(name, "Inner");
        assert_eq!(members.len(), 2);
        assert!(matches!(members[0], ClassMember::Variable { ref name, .. } if name == "a"));
        assert!(matches!(members[1], ClassMember::Function { ref name, .. } if name == "f"));
    } else {
        panic!("expected InnerClass");
    }
    assert!(matches!(members[1], ClassMember::Variable { ref name, .. } if name == "b"));
}

#[test]
fn function_signature_parts_are_read() {
    let members = parse_source("func move(dir: Vector2, speed := 1.0) -> Array[int]:\n\tpass\n");
    if let ClassMember::Function {
        ref parameters,
        ref return_type,
        body_line_count,
        ..
    } = members[0]
    {
        assert_eq!(parameters.len(), 2);
        assert_eq!(parameters[0].name, "dir");
        assert_eq!(parameters[0].type_hint.as_deref(), Some("Vector2"));
        assert_eq!(parameters[1].name, "speed");
        assert_eq!(parameters[1].type_hint.as_deref(), Some(":="));
        assert_eq!(return_type.as_deref(), Some("Array[int]"));
        assert_eq!(body_line_count, 1);
    } else {
        panic!("expected Function");
    }
}
