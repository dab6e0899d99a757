use lib::ast::{ClassMember, Parameter, ScriptFile};
use lib::config::Config;
use lib::rules::quality::{
    check_allocation_in_loop, check_await_in_loop, check_empty_function, check_max_class_variables,
    check_max_file_length, check_max_function_length, check_max_inner_classes, check_max_parameters,
    check_max_public_methods, check_no_debug_print, check_no_else_return, check_no_self_assign,
    check_self_comparison, check_type_hint, check_unreachable_code,
};
use lib::token::{Span, Token, TokenKind};

fn span(line: usize) -> Span {
    Span::new(line, 1, 0, 0)
}

// --- Existing rule tests ---

#[test]
fn function_within_limit_no_diagnostic() {
    let file = ScriptFile {
        path: "test.gd".to_string(),
        lines: vec![],
        members: vec![ClassMember::Function {
            name: "short_func".to_string(),
            name_span: span(1),
            parameters: vec![],
            return_type: None,
            is_static: false,
            annotations: vec![],
            body_line_count: 10,
            span: span(1),
        }],
    };
    let config = Config::default();
    let mut diags = Vec::new();
    check_max_function_length(&file, &config, &mut diags);
    assert!(diags.is_empty());
}

#[test]
fn function_exceeds_limit() {
    let file = ScriptFile {
        path: "test.gd".to_string(),
        lines: vec![],
        members: vec![ClassMember::Function {
            name: "long_func".to_string(),
            name_span: span(1),
            parameters: vec![],
            return_type: None,
            is_static: false,
            annotations: vec![],
            body_line_count: 60,
            span: span(1),
        }],
    };
    let config = Config::default();
    let mut diags = Vec::new();
    check_max_function_length(&file, &config, &mut diags);
    assert_eq!(diags.len(), 1);
    assert!(diags[0].message.contains("60 lines"));
}

#[test]
fn file_within_limit() {
    let file = ScriptFile {
        path: "test.gd".to_string(),
        lines: vec!["line".to_string(); 100],
        members: vec![],
    };
    let config = Config::default();
    let mut diags = Vec::new();
    check_max_file_length(&file, &config, &mut diags);
    assert!(diags.is_empty());
}

#[test]
fn file_exceeds_limit() {
    let file = ScriptFile {
        path: "test.gd".to_string(),
        lines: vec!["line".to_string(); 1500],
        members: vec![],
    };
    let config = Config::default();
    let mut diags = Vec::new();
    check_max_file_length(&file, &config, &mut diags);
    assert_eq!(diags.len(), 1);
}

#[test]
fn too_many_parameters() {
    let file = ScriptFile {
        path: "test.gd".to_string(),
        lines: vec![],
        members: vec![ClassMember::Function {
            name: "complex_func".to_string(),
            name_span: span(1),
            parameters: vec![
                Parameter {
                    name: "a".into(),
                    type_hint: None,
                    span: span(1),
                },
                Parameter {
                    name: "b".into(),
                    type_hint: None,
                    span: span(1),
                },
                Parameter {
                    name: "c".into(),
                    type_hint: None,
                    span: span(1),
                },
                Parameter {
                    name: "d".into(),
                    type_hint: None,
                    span: span(1),
                },
                Parameter {
                    name: "e".into(),
                    type_hint: None,
                    span: span(1),
                },
                Parameter {
                    name: "f".into(),
                    type_hint: None,
                    span: span(1),
                },
            ],
            return_type: None,
            is_static: false,
            annotations: vec![],
            body_line_count: 5,
            span: span(1),
        }],
    };
    let config = Config::default();
    let mut diags = Vec::new();
    check_max_parameters(&file, &config, &mut diags);
    assert_eq!(diags.len(), 1);
    assert!(diags[0].message.contains("6 parameters"));
}

#[test]
fn parameters_within_limit() {
    let file = ScriptFile {
        path: "test.gd".to_string(),
        lines: vec![],
        members: vec![ClassMember::Function {
            name: "ok_func".to_string(),
            name_span: span(1),
            parameters: vec![
                Parameter {
                    name: "a".into(),
                    type_hint: None,
                    span: span(1),
                },
                Parameter {
                    name: "b".into(),
                    type_hint: None,
                    span: span(1),
                },
            ],
            return_type: None,
            is_static: false,
            annotations: vec![],
            body_line_count: 5,
            span: span(1),
        }],
    };
    let config = Config::default();
    let mut diags = Vec::new();
    check_max_parameters(&file, &config, &mut diags);
    assert!(diags.is_empty());
}

// --- New rule tests ---

#[test]
fn no_debug_print_catches_print() {
    let tokens = vec![
        Token::new(
            TokenKind::Identifier("print".into()),
            span(1),
            "print".into(),
        ),
        Token::new(TokenKind::LeftParen, span(1), "(".into()),
    ];
    let file = ScriptFile {
        path: "test.gd".to_string(),
        lines: vec!["print(\"hello\")".to_string()],
        members: vec![],
    };
    let mut diags = Vec::new();
    check_no_debug_print(&tokens, &file, &mut diags);
    assert_eq!(diags.len(), 1);
    assert!(diags[0].message.contains("print()"));
}

#[test]
fn no_debug_print_ignores_custom_functions() {
    let tokens = vec![
        Token::new(
            TokenKind::Identifier("print_score".into()),
            span(1),
            "print_score".into(),
        ),
        Token::new(TokenKind::LeftParen, span(1), "(".into()),
    ];
    let file = ScriptFile {
        path: "test.gd".to_string(),
        lines: vec!["print_score(100)".to_string()],
        members: vec![],
    };
    let mut diags = Vec::new();
    check_no_debug_print(&tokens, &file, &mut diags);
    assert!(diags.is_empty());
}

#[test]
fn self_comparison_detected() {
    let tokens = vec![
        Token::new(TokenKind::Identifier("x".into()), span(1), "x".into()),
        Token::new(TokenKind::Equal, span(1), "==".into()),
        Token::new(TokenKind::Identifier("x".into()), span(1), "x".into()),
    ];
    let file = ScriptFile {
        path: "test.gd".to_string(),
        lines: vec![],
        members: vec![],
    };
    let mut diags = Vec::new();
    check_self_comparison(&tokens, &file, &mut diags);
    assert_eq!(diags.len(), 1);
}

#[test]
fn self_comparison_different_vars_ok() {
    let tokens = vec![
        Token::new(TokenKind::Identifier("x".into()), span(1), "x".into()),
        Token::new(TokenKind::Equal, span(1), "==".into()),
        Token::new(TokenKind::Identifier("y".into()), span(1), "y".into()),
    ];
    let file = ScriptFile {
        path: "test.gd".to_string(),
        lines: vec![],
        members: vec![],
    };
    let mut diags = Vec::new();
    check_self_comparison(&tokens, &file, &mut diags);
    assert!(diags.is_empty());
}

#[test]
fn no_self_assign_detected() {
    let tokens = vec![
        Token::new(TokenKind::Identifier("x".into()), span(1), "x".into()),
        Token::new(TokenKind::Assign, span(1), "=".into()),
        Token::new(TokenKind::Identifier("x".into()), span(1), "x".into()),
        Token::new(TokenKind::Newline, span(1), "\n".into()),
    ];
    let file = ScriptFile {
        path: "test.gd".to_string(),
        lines: vec![],
        members: vec![],
    };
    let mut diags = Vec::new();
    check_no_self_assign(&tokens, &file, &mut diags);
    assert_eq!(diags.len(), 1);
}

#[test]
fn no_self_assign_dot_access_ok() {
    let tokens = vec![
        Token::new(TokenKind::Identifier("x".into()), span(1), "x".into()),
        Token::new(TokenKind::Assign, span(1), "=".into()),
        Token::new(TokenKind::Identifier("x".into()), span(1), "x".into()),
        Token::new(TokenKind::Dot, span(1), ".".into()),
    ];
    let file = ScriptFile {
        path: "test.gd".to_string(),
        lines: vec![],
        members: vec![],
    };
    let mut diags = Vec::new();
    check_no_self_assign(&tokens, &file, &mut diags);
    assert!(diags.is_empty());
}

#[test]
fn empty_function_detected() {
    let file = ScriptFile {
        path: "test.gd".to_string(),
        lines: vec!["func do_nothing():".to_string(), "\tpass".to_string()],
        members: vec![ClassMember::Function {
            name: "do_nothing".to_string(),
            name_span: span(1),
            parameters: vec![],
            return_type: None,
            is_static: false,
            annotations: vec![],
            body_line_count: 1,
            span: span(1),
        }],
    };
    let mut diags = Vec::new();
    check_empty_function(&file, &mut diags);
    assert_eq!(diags.len(), 1);
    assert!(diags[0].message.contains("only contains 'pass'"));
}

#[test]
fn type_hint_warns_on_missing() {
    let file = ScriptFile {
        path: "test.gd".to_string(),
        lines: vec![],
        members: vec![
            ClassMember::Variable {
                name: "speed".to_string(),
                name_span: span(1),
                type_hint: None,
                annotations: vec![],
                span: span(1),
            },
            ClassMember::Variable {
                name: "health".to_string(),
                name_span: span(2),
                type_hint: Some("int".to_string()),
                annotations: vec![],
                span: span(2),
            },
        ],
    };
    let mut diags = Vec::new();
    check_type_hint(&file, &mut diags);
    assert_eq!(diags.len(), 1);
    assert!(diags[0].message.contains("speed"));
}

#[test]
fn unreachable_code_after_return() {
    let file = ScriptFile {
        path: "test.gd".to_string(),
        lines: vec![
            "func foo():".to_string(),
            "\treturn 1".to_string(),
            "\tvar x = 2".to_string(),
        ],
        members: vec![],
    };
    let mut diags = Vec::new();
    check_unreachable_code(&file, &mut diags);
    assert_eq!(diags.len(), 1);
    assert_eq!(diags[0].span.line, 3);
}

#[test]
fn unreachable_code_multiline_return_close_paren_not_flagged() {
    // Regression for issue #3: a multi-line return like
    //     return floori(
    //         1.2
    //     )
    // would have its closing `)` flagged as "unreachable code"
    // because the rule scanned forward line-by-line ignoring that
    // the closing paren is part of the same `return` statement.
    let file = ScriptFile {
        path: "test.gd".to_string(),
        lines: vec![
            "func single_return() -> int:".to_string(),
            "\treturn floori(".to_string(),
            "\t\t1.2".to_string(),
            "\t)".to_string(),
        ],
        members: vec![],
    };
    let mut diags = Vec::new();
    check_unreachable_code(&file, &mut diags);
    assert!(
        diags.is_empty(),
        "closing paren of multi-line return must not be flagged, got: {:?}",
        diags
    );
}

#[test]
fn unreachable_code_multiline_return_user_reported_shape() {
    // Verbatim shape from issue #3 reporter (EvilsPresley): two
    // multi-line `return` statements, one inside `if` with an
    // inconsistently-indented close paren, one at function-body
    // level with the canonical close-paren indent. Neither should
    // produce an unreachable-code diagnostic.
    let file = ScriptFile {
        path: "test.gd".to_string(),
        lines: vec![
            "func unreachable_code(".to_string(),
            "\treachable: bool = true".to_string(),
            ") -> int:".to_string(),
            "\tif reachable:".to_string(),
            "\t\treturn floori(".to_string(),
            "\t\t\t1.1".to_string(),
            "\t\t\t)".to_string(),
            "\treturn floori(".to_string(),
            "\t\t1.2".to_string(),
            "\t)".to_string(),
        ],
        members: vec![],
    };
    let mut diags = Vec::new();
    check_unreachable_code(&file, &mut diags);
    assert!(
        diags.is_empty(),
        "no unreachable-code expected on issue #3 example, got: {:?}",
        diags
    );
}

#[test]
fn unreachable_code_backslash_continuation_not_flagged() {
    // A `return` whose expression continues onto the next line via
    // backslash continuation is one statement, not two — and the
    // continuation line lands at the same indent as `return`.
    let file = ScriptFile {
        path: "test.gd".to_string(),
        lines: vec![
            "func sum() -> int:".to_string(),
            "\treturn 1 + 2 \\".to_string(),
            "\t\t+ 3".to_string(),
        ],
        members: vec![],
    };
    let mut diags = Vec::new();
    check_unreachable_code(&file, &mut diags);
    assert!(diags.is_empty(), "got: {:?}", diags);
}

#[test]
fn unreachable_code_after_multiline_return_still_flagged() {
    // True positive guard: code at the same indent AFTER the
    // multi-line return has closed must still be flagged.
    let file = ScriptFile {
        path: "test.gd".to_string(),
        lines: vec![
            "func foo() -> int:".to_string(),
            "\treturn floori(".to_string(),
            "\t\t1.2".to_string(),
            "\t)".to_string(),
            "\tvar x = 2".to_string(),
        ],
        members: vec![],
    };
    let mut diags = Vec::new();
    check_unreachable_code(&file, &mut diags);
    assert_eq!(diags.len(), 1);
    assert_eq!(diags[0].span.line, 5);
}

#[test]
fn unreachable_code_else_not_flagged() {
    let file = ScriptFile {
        path: "test.gd".to_string(),
        lines: vec![
            "func foo():".to_string(),
            "\tif true:".to_string(),
            "\t\treturn 1".to_string(),
            "\telse:".to_string(),
            "\t\treturn 2".to_string(),
        ],
        members: vec![],
    };
    let mut diags = Vec::new();
    check_unreachable_code(&file, &mut diags);
    assert!(diags.is_empty());
}

#[test]
fn await_in_loop_detected() {
    let file = ScriptFile {
        path: "test.gd".to_string(),
        lines: vec![
            "func fetch_all():".to_string(),
            "\tfor item in items:".to_string(),
            "\t\tawait http_request(item)".to_string(),
        ],
        members: vec![],
    };
    let mut diags = Vec::new();
    check_await_in_loop(&file, &mut diags);
    assert_eq!(diags.len(), 1);
}

#[test]
fn await_in_loop_ignores_keyword_inside_string() {
    // `" await "` inside a string literal is not an await statement.
    let file = ScriptFile {
        path: "test.gd".to_string(),
        lines: vec![
            "func fetch_all():".to_string(),
            "\tfor item in items:".to_string(),
            "\t\tvar label = \"please await the result\"".to_string(),
        ],
        members: vec![],
    };
    let mut diags = Vec::new();
    check_await_in_loop(&file, &mut diags);
    assert!(
        diags.is_empty(),
        "await inside a string must not be flagged"
    );
}

#[test]
fn allocation_in_loop_detected() {
    let file = ScriptFile {
        path: "test.gd".to_string(),
        lines: vec![
            "func spawn():".to_string(),
            "\tfor i in range(10):".to_string(),
            "\t\tvar enemy = Enemy.new()".to_string(),
        ],
        members: vec![],
    };
    let mut diags = Vec::new();
    check_allocation_in_loop(&file, &mut diags);
    assert_eq!(diags.len(), 1);
}

#[test]
fn no_else_return_detected() {
    let file = ScriptFile {
        path: "test.gd".to_string(),
        lines: vec![
            "func foo(x):".to_string(),
            "\tif x > 0:".to_string(),
            "\t\treturn true".to_string(),
            "\telse:".to_string(),
            "\t\treturn false".to_string(),
        ],
        members: vec![],
    };
    let mut diags = Vec::new();
    check_no_else_return(&file, &mut diags);
    assert_eq!(diags.len(), 1);
    assert!(diags[0].message.contains("else"));
}

#[test]
fn max_class_variables_exceeded() {
    let members: Vec<ClassMember> = (0..20)
        .map(|i| ClassMember::Variable {
            name: format!("var_{}", i),
            name_span: span(i + 1),
            type_hint: None,
            annotations: vec![],
            span: span(i + 1),
        })
        .collect();
    let file = ScriptFile {
        path: "test.gd".to_string(),
        lines: vec![],
        members,
    };
    let config = Config::default(); // max 15
    let mut diags = Vec::new();
    check_max_class_variables(&file, &config, &mut diags);
    assert_eq!(diags.len(), 1);
    assert!(diags[0].message.contains("20 variables"));
}

#[test]
fn max_public_methods_exceeded() {
    let members: Vec<ClassMember> = (0..25)
        .map(|i| ClassMember::Function {
            name: format!("method_{}", i),
            name_span: span(i + 1),
            parameters: vec![],
            return_type: None,
            is_static: false,
            annotations: vec![],
            body_line_count: 1,
            span: span(i + 1),
        })
        .collect();
    let file = ScriptFile {
        path: "test.gd".to_string(),
        lines: vec![],
        members,
    };
    let config = Config::default(); // max 20
    let mut diags = Vec::new();
    check_max_public_methods(&file, &config, &mut diags);
    assert_eq!(diags.len(), 1);
}

#[test]
fn max_inner_classes_exceeded() {
    let members: Vec<ClassMember> = (0..8)
        .map(|i| ClassMember::InnerClass {
            name: format!("Inner{}", i),
            name_span: span(i + 1),
            members: vec![],
            span: span(i + 1),
        })
        .collect();
    let file = ScriptFile {
        path: "test.gd".to_string(),
        lines: vec![],
        members,
    };
    let config = Config::default(); // max 5
    let mut diags = Vec::new();
    check_max_inner_classes(&file, &config, &mut diags);
    assert_eq!(diags.len(), 1);
}
