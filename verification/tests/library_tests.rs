use lib::ast::{for_each_member, ClassMember, ScriptFile};
use lib::config::{Config, RuleOverrides, RuleSeverityConfig};
use lib::diagnostic::{Diagnostic, Severity};
use lib::lexer::Lexer;
use lib::linter::{lint_source, normalize_line_endings};
use lib::parser::Parser;
use lib::rules::quality::{
    check_max_nesting_depth, check_no_else_return, check_process_get_node, check_duplicate_dict_key, check_max_class_variables, check_max_file_length, check_max_function_length,
    check_max_inner_classes, check_max_public_methods,
};
use lib::token::{Span, Token, TokenKind};

fn parse(source: &str) -> Vec<ClassMember> {
    let mut lexer = Lexer::new(source);
    let tokens = lexer.tokenize();
    Parser::new(&tokens).parse()
}

fn tokens_of(source: &str) -> Vec<Token> {
    let mut lexer = Lexer::new(source);
    lexer.tokenize()
}

fn with_rule<'a>(diags: &'a [Diagnostic], rule: &str) -> Vec<&'a Diagnostic> {
    diags.iter().filter(|d| d.rule == rule).collect()
}

fn function(name: &str, line: usize, body: usize) -> ClassMember {
    ClassMember::Function {
        name: name.to_string(),
        name_span: Span::new(line, 1, 0, 0),
        parameters: vec![],
        return_type: None,
        is_static: false,
        annotations: vec![],
        body_line_count: body,
        span: Span::new(line, 1, 0, 0),
    }
}

// --- line endings ---

#[test]
fn normalize_converts_crlf_and_lone_cr() {
    assert_eq!(normalize_line_endings("a\r\nb\rc\r\n"), "a\nb\nc\n");
    assert_eq!(normalize_line_endings("\r\r\n"), "\n\n");
    assert_eq!(normalize_line_endings("plain\ntext"), "plain\ntext");
}

#[test]
fn normalize_is_idempotent_on_example() {
    let once = normalize_line_endings("x\r\ny\r\r\nz\r");
    assert!(!once.contains('\r'));
    assert_eq!(normalize_line_endings(&once), once);
}

// --- configuration ---

#[test]
fn default_config_values() {
    let c = Config::default();
    assert_eq!(c.max_line_length, 100);
    assert!(c.use_tabs);
    assert_eq!(c.max_function_length, 50);
    assert_eq!(c.max_file_length, 1000);
    assert_eq!(c.max_parameters, 5);
    assert_eq!(c.max_returns, 6);
    assert_eq!(c.max_nesting_depth, 4);
    assert_eq!(c.max_local_variables, 10);
    assert_eq!(c.max_branches, 8);
    assert_eq!(c.max_class_variables, 15);
    assert_eq!(c.max_public_methods, 20);
    assert_eq!(c.max_inner_classes, 5);
    assert_eq!(c.exclude, vec![".godot".to_string(), "addons".to_string()]);
}

#[test]
fn advisory_rules_are_off_by_default() {
    let c = Config::default();
    assert!(!c.is_rule_enabled("quality/type-hint"));
    assert!(!c.is_rule_enabled("quality/empty-function"));
    assert!(!c.is_rule_enabled("quality/no-debug-print"));
    assert!(c.is_rule_enabled("quality/max-returns"));
    assert!(c.is_rule_enabled("naming/class-name-pascal-case"));
}

#[test]
fn overrides_enable_and_disable_rules() {
    let mut c = Config::default();
    c.rules.insert("quality/type-hint".to_string(), RuleSeverityConfig::Warn);
    c.rules.insert("quality/max-returns".to_string(), RuleSeverityConfig::Off);
    assert!(c.is_rule_enabled("quality/type-hint"));
    assert!(!c.is_rule_enabled("quality/max-returns"));
}

#[test]
fn override_lookup_returns_last_insert() {
    let mut r = RuleOverrides::new();
    let key: Vec<char> = "format/double-quotes".chars().collect();
    let other: Vec<char> = "format/other".chars().collect();
    assert_eq!(r.get(&key), None);
    r.insert("format/double-quotes".to_string(), RuleSeverityConfig::Error);
    assert_eq!(r.get(&key), Some(RuleSeverityConfig::Error));
    r.insert("format/double-quotes".to_string(), RuleSeverityConfig::Off);
    assert_eq!(r.get(&key), Some(RuleSeverityConfig::Off));
    assert_eq!(r.get(&other), None);
}

#[test]
fn error_override_escalates_severity() {
    let mut config = Config::default();
    config.rules.insert("naming/class-name-pascal-case".to_string(), RuleSeverityConfig::Error);
    let diags = lint_source("class_name my_player\n", "test.gd", &config);
    let hits = with_rule(&diags, "naming/class-name-pascal-case");
    assert_eq!(hits.len(), 1);
    assert_eq!(hits[0].severity, Severity::Error);
    assert_eq!(hits[0].message, "class name 'my_player' should be PascalCase");
    assert_eq!(hits[0].span.line, 1);
    assert_eq!(hits[0].file, "test.gd");
}

#[test]
fn disabled_lex_error_rule_hides_lexer_errors() {
    let mut config = Config::default();
    config.rules.insert("syntax/lex-error".to_string(), RuleSeverityConfig::Off);
    let diags = lint_source("var x = \"oops\nvar y = 5\n", "test.gd", &config);
    assert!(with_rule(&diags, "syntax/lex-error").is_empty());
}

// --- suppression ---

#[test]
fn directive_needs_a_terminator() {
    let config = Config::default();
    let diags = lint_source("# gdstyle:ignore-foo\nclass_name my_player\n", "test.gd", &config);
    assert_eq!(with_rule(&diags, "naming/class-name-pascal-case").len(), 1);
}

#[test]
fn standalone_directive_only_covers_next_line() {
    let config = Config::default();
    let diags = lint_source("# gdstyle:ignore\nvar BadOne: int = 1\nvar BadTwo: int = 2\n", "test.gd", &config);
    let hits = with_rule(&diags, "naming/variable-name-snake-case");
    assert_eq!(hits.len(), 1);
    assert_eq!(hits[0].span.line, 3);
}

#[test]
fn file_directive_with_rule_list_keeps_other_rules() {
    let config = Config::default();
    let source = "var BadName: int = 5   \n# gdstyle:ignore-file=format/trailing-whitespace, quality/max-returns\n";
    let diags = lint_source(source, "test.gd", &config);
    assert!(with_rule(&diags, "format/trailing-whitespace").is_empty());
    assert_eq!(with_rule(&diags, "naming/variable-name-snake-case").len(), 1);
}

#[test]
fn bare_file_directive_after_code_silences_everything() {
    let config = Config::default();
    let diags = lint_source("class_name bad_name   # gdstyle:ignore-file\nvar AlsoBad: int = 5\n", "test.gd", &config);
    assert!(diags.is_empty(), "got {:?}", diags);
}

// --- naming and format findings ---

#[test]
fn naming_messages() {
    let config = Config::default();
    let diags = lint_source("func takeDamage() -> void:\n\tpass\nvar BadName: int = 5\nstatic var SHARED: int = 1\n", "t.gd", &config);
    let f = with_rule(&diags, "naming/function-name-snake-case");
    assert_eq!(f.len(), 1);
    assert_eq!(f[0].message, "function name 'takeDamage' should be snake_case");
    let v = with_rule(&diags, "naming/variable-name-snake-case");
    assert_eq!(v.len(), 1);
    assert_eq!(v[0].message, "variable name 'BadName' should be snake_case");
    assert_eq!(v[0].span.line, 3);
}

#[test]
fn line_length_counts_tab_as_four_columns() {
    let config = Config::default();
    let source = format!("\t{}\n", "a".repeat(97));
    let diags = lint_source(&source, "t.gd", &config);
    let hits = with_rule(&diags, "format/max-line-length");
    assert_eq!(hits.len(), 1);
    assert_eq!(hits[0].message, "line is 101 columns long (max 100)");
}

#[test]
fn trailing_whitespace_reports_the_line() {
    let config = Config::default();
    let diags = lint_source("var x: int = 1\nvar y: int = 2\t\n", "t.gd", &config);
    let hits = with_rule(&diags, "format/trailing-whitespace");
    assert_eq!(hits.len(), 1);
    assert_eq!(hits[0].span.line, 2);
    assert_eq!(hits[0].message, "trailing whitespace");
}

// --- quality messages ---

#[test]
fn max_function_length_message() {
    let file = ScriptFile { path: "a.gd".to_string(), lines: vec![], members: vec![function("long_func", 3, 60)] };
    let mut diags = Vec::new();
    check_max_function_length(&file, &Config::default(), &mut diags);
    assert_eq!(diags.len(), 1);
    assert_eq!(diags[0].message, "function 'long_func' is 60 lines long (max 50)");
    assert_eq!(diags[0].rule, "quality/max-function-length");
    assert_eq!(diags[0].span.line, 3);
    assert_eq!(diags[0].severity, Severity::Warning);
}

#[test]
fn function_length_limit_is_exclusive() {
    let file = ScriptFile { path: "a.gd".to_string(), lines: vec![], members: vec![function("f", 1, 50)] };
    let mut diags = Vec::new();
    check_max_function_length(&file, &Config::default(), &mut diags);
    assert!(diags.is_empty());
}

#[test]
fn inner_class_functions_are_checked() {
    let inner = ClassMember::InnerClass {
        name: "Inner".to_string(),
        name_span: Span::new(1, 7, 0, 0),
        members: vec![function("deep", 2, 70)],
        span: Span::new(1, 1, 0, 0),
    };
    let file = ScriptFile { path: "a.gd".to_string(), lines: vec![], members: vec![inner] };
    let mut diags = Vec::new();
    check_max_function_length(&file, &Config::default(), &mut diags);
    assert_eq!(diags.len(), 1);
    assert_eq!(diags[0].message, "function 'deep' is 70 lines long (max 50)");
}

#[test]
fn file_and_class_limit_messages() {
    let file = ScriptFile { path: "a.gd".to_string(), lines: vec!["x".to_string(); 1001], members: vec![] };
    let mut diags = Vec::new();
    check_max_file_length(&file, &Config::default(), &mut diags);
    assert_eq!(diags[0].message, "file is 1001 lines long (max 1000)");
    assert_eq!(diags[0].span.line, 1);

    let members: Vec<ClassMember> = (0..16)
        .map(|i| ClassMember::Variable {
            name: format!("v{}", i),
            name_span: Span::new(i + 1, 5, 0, 0),
            type_hint: None,
            annotations: vec![],
            span: Span::new(i + 1, 1, 0, 0),
        })
        .collect();
    let file = ScriptFile { path: "a.gd".to_string(), lines: vec![], members };
    let mut diags = Vec::new();
    check_max_class_variables(&file, &Config::default(), &mut diags);
    assert_eq!(diags.len(), 1);
    assert_eq!(diags[0].message, "class has 16 variables (max 15)");

    let mut methods: Vec<ClassMember> = (0..21).map(|i| function(&format!("m{}", i), i + 1, 1)).collect();
    methods.push(function("_private", 30, 1));
    let file = ScriptFile { path: "a.gd".to_string(), lines: vec![], members: methods };
    let mut diags = Vec::new();
    check_max_public_methods(&file, &Config::default(), &mut diags);
    assert_eq!(diags[0].message, "class has 21 public methods (max 20)");

    let inner: Vec<ClassMember> = (0..6)
        .map(|i| ClassMember::InnerClass {
            name: format!("C{}", i),
            name_span: Span::new(i + 1, 7, 0, 0),
            members: vec![],
            span: Span::new(i + 1, 1, 0, 0),
        })
        .collect();
    let file = ScriptFile { path: "a.gd".to_string(), lines: vec![], members: inner };
    let mut diags = Vec::new();
    check_max_inner_classes(&file, &Config::default(), &mut diags);
    assert_eq!(diags[0].message, "file has 6 inner classes (max 5)");
}

#[test]
fn inner_class_limit_reported_at_its_first_member() {
    let vars: Vec<ClassMember> = (0..16)
        .map(|i| ClassMember::Variable {
            name: format!("v{}", i),
            name_span: Span::new(i + 10, 5, 0, 0),
            type_hint: None,
            annotations: vec![],
            span: Span::new(i + 10, 2, 0, 0),
        })
        .collect();
    let inner = ClassMember::InnerClass {
        name: "Big".to_string(),
        name_span: Span::new(9, 7, 0, 0),
        members: vars,
        span: Span::new(9, 1, 0, 0),
    };
    let file = ScriptFile { path: "a.gd".to_string(), lines: vec![], members: vec![inner] };
    let mut diags = Vec::new();
    check_max_class_variables(&file, &Config::default(), &mut diags);
    assert_eq!(diags.len(), 1);
    assert_eq!(diags[0].span.line, 10);
    assert_eq!(diags[0].span.column, 2);
}

#[test]
fn duplicate_key_message_names_first_line() {
    let config = Config::default();
    let diags = lint_source("func test() -> Dictionary:\n\treturn {\"a\": 1,\n\t\t'a': 3}\n", "t.gd", &config);
    let hits = with_rule(&diags, "quality/duplicate-dict-key");
    assert_eq!(hits.len(), 1);
    assert_eq!(hits[0].message, "duplicate dictionary key 'a' (first seen at line 2)");
    assert_eq!(hits[0].span.line, 3);
}

#[test]
fn duplicate_key_scan_skips_nested_literal() {
    let tokens = tokens_of("{x: {x: 1}, y: 2, y: 3}");
    let file = ScriptFile { path: "a.gd".to_string(), lines: vec![], members: vec![] };
    let mut diags = Vec::new();
    check_duplicate_dict_key(&tokens, &file, &mut diags);
    assert_eq!(diags.len(), 1);
    assert_eq!(diags[0].message, "duplicate dictionary key 'y' (first seen at line 1)");
}

#[test]
fn duplicated_load_message() {
    let config = Config::default();
    let source = "var a: PackedScene = preload(\"res://s.tscn\")\nvar b: PackedScene = load(\"res://s.tscn\")\n";
    let diags = lint_source(source, "t.gd", &config);
    let hits = with_rule(&diags, "quality/duplicated-load");
    assert_eq!(hits.len(), 1);
    assert_eq!(hits[0].message, "duplicated load of 'res://s.tscn' (first seen at line 1)");
    assert_eq!(hits[0].span.line, 2);
}

#[test]
fn self_assign_and_comparison_messages() {
    let config = Config::default();
    let diags = lint_source("func t() -> void:\n\tobj.foo = obj.foo\n\tif a <= a:\n\t\tpass\n", "t.gd", &config);
    let sa = with_rule(&diags, "quality/no-self-assign");
    assert_eq!(sa.len(), 1);
    assert_eq!(sa[0].message, "self-assignment of 'obj.foo'");
    let sc = with_rule(&diags, "quality/self-comparison");
    assert_eq!(sc.len(), 1);
    assert_eq!(sc[0].message, "comparing 'a' with itself");
    assert_eq!(sc[0].span.line, 3);
}

#[test]
fn debug_print_message() {
    let mut config = Config::default();
    config.rules.insert("quality/no-debug-print".to_string(), RuleSeverityConfig::Warn);
    let diags = lint_source("func t() -> void:\n\tprinterr(\"x\")\n", "t.gd", &config);
    let hits = with_rule(&diags, "quality/no-debug-print");
    assert_eq!(hits.len(), 1);
    assert_eq!(hits[0].message, "debug 'printerr()' call found");
}

#[test]
fn process_get_node_message() {
    let config = Config::default();
    let diags = lint_source("func _process(delta: float) -> void:\n\t# $Commented\n\tvar n = get_node_or_null(\"X\")\n", "t.gd", &config);
    let hits = with_rule(&diags, "quality/process-get-node");
    assert_eq!(hits.len(), 1);
    assert_eq!(hits[0].span.line, 3);
    assert_eq!(hits[0].message, "node lookup in '_process()'; cache the node in '_ready' or use '@onready'");
}

#[test]
fn nesting_depth_message_points_at_deepest_line() {
    let config = Config::default();
    let source = "func f(a: bool) -> void:\n\tif a:\n\t\tif a:\n\t\t\tif a:\n\t\t\t\tif a:\n\t\t\t\t\tif a:\n\t\t\t\t\t\tpass\n";
    let diags = lint_source(source, "t.gd", &config);
    let hits = with_rule(&diags, "quality/max-nesting-depth");
    assert_eq!(hits.len(), 1);
    assert_eq!(hits[0].message, "function 'f' has nesting depth 5 (max 4)");
    assert_eq!(hits[0].span.line, 7);
}

#[test]
fn counting_rule_messages() {
    let config = Config::default();
    let mut source = String::from("func f(x: int) -> int:\n");
    for k in 0..9 {
        source.push_str(&format!("\tvar v{}: int = {}\n", k, k));
    }
    for k in 0..9 {
        source.push_str(&format!("\tif x == {}:\n\t\treturn {}\n", k, k));
    }
    source.push_str("\tvar w1: int = 0\n\tvar w2: int = 0\n\treturn 0\n");
    let diags = lint_source(&source, "t.gd", &config);
    let r = with_rule(&diags, "quality/max-returns");
    assert_eq!(r.len(), 1);
    assert_eq!(r[0].message, "function 'f' has 10 return statements (max 6)");
    let b = with_rule(&diags, "quality/max-branches");
    assert_eq!(b.len(), 1);
    assert_eq!(b[0].message, "function 'f' has 9 branches (max 8)");
    let v = with_rule(&diags, "quality/max-local-variables");
    assert_eq!(v.len(), 1);
    assert_eq!(v[0].message, "function 'f' has 11 local variables (max 10)");
}

#[test]
fn flow_rule_messages() {
    let config = Config::default();
    let source = "func f(x: int) -> int:\n\tif x > 0:\n\t\treturn 1\n\telif x < 0:\n\t\treturn 2\n\treturn 3\n\tx += 1\n";
    let diags = lint_source(source, "t.gd", &config);
    let e = with_rule(&diags, "quality/no-else-return");
    assert_eq!(e.len(), 1);
    assert_eq!(e[0].message, "unnecessary 'elif' after 'return'");
    assert_eq!(e[0].span.line, 4);
    let u = with_rule(&diags, "quality/unreachable-code");
    assert_eq!(u.len(), 1);
    assert_eq!(u[0].span.line, 7);
    assert_eq!(u[0].message, "unreachable code");
}

#[test]
fn loop_rule_messages_and_comments_in_code() {
    let config = Config::default();
    let source = "func f() -> void:\n\tfor i in range(3):\n\t\tvar n = Node.new() # x.new(\n\t\tawait n.ready\n\tvar done = \"await \"  # await here\n";
    let diags = lint_source(source, "t.gd", &config);
    let a = with_rule(&diags, "quality/await-in-loop");
    assert_eq!(a.len(), 1);
    assert_eq!(a[0].span.line, 4);
    assert_eq!(a[0].message, "'await' used inside a loop");
    let n = with_rule(&diags, "quality/allocation-in-loop");
    assert_eq!(n.len(), 1);
    assert_eq!(n[0].span.line, 3);
    assert_eq!(n[0].message, "object allocation '.new()' inside a loop");
}

#[test]
fn unnecessary_pass_message() {
    let config = Config::default();
    let diags = lint_source("func f() -> void:\n\tvar x: int = 1\n\tpass\n", "t.gd", &config);
    let hits = with_rule(&diags, "quality/unnecessary-pass");
    assert_eq!(hits.len(), 1);
    assert_eq!(hits[0].span.line, 3);
    assert_eq!(hits[0].message, "unnecessary 'pass' statement");
}

#[test]
fn empty_function_messages() {
    let mut config = Config::default();
    config.rules.insert("quality/empty-function".to_string(), RuleSeverityConfig::Warn);
    let diags = lint_source("func f() -> void:\n\tpass\n", "t.gd", &config);
    let hits = with_rule(&diags, "quality/empty-function");
    assert_eq!(hits.len(), 1);
    assert_eq!(hits[0].message, "function 'f' only contains 'pass'");
}

#[test]
fn type_hint_messages() {
    let mut config = Config::default();
    config.rules.insert("quality/type-hint".to_string(), RuleSeverityConfig::Warn);
    let diags = lint_source("var speed = 1\nfunc f(x, y: int):\n\tpass\n", "t.gd", &config);
    let msgs: Vec<&str> = with_rule(&diags, "quality/type-hint").iter().map(|d| d.message.as_str()).collect();
    assert_eq!(
        msgs,
        vec![
            "variable 'speed' has no type hint",
            "function 'f' has no return type hint",
            "parameter 'x' in function 'f' has no type hint",
        ]
    );
}

#[test]
fn lex_error_is_reported_as_error() {
    let config = Config::default();
    let diags = lint_source("var s = \"no end\n", "t.gd", &config);
    let hits = with_rule(&diags, "syntax/lex-error");
    assert_eq!(hits.len(), 1);
    assert_eq!(hits[0].severity, Severity::Error);
    assert_eq!(hits[0].span.line, 1);
}

// --- lexer and parser ---

#[test]
fn tokens_end_with_a_single_eof() {
    let tokens = tokens_of("func f():\n\tif x:\n\t\tpass\n");
    assert!(matches!(tokens.last().unwrap().kind, TokenKind::Eof));
    assert_eq!(tokens.iter().filter(|t| matches!(t.kind, TokenKind::Eof)).count(), 1);
    let indents = tokens.iter().filter(|t| matches!(t.kind, TokenKind::Indent)).count();
    let dedents = tokens.iter().filter(|t| matches!(t.kind, TokenKind::Dedent)).count();
    assert_eq!(indents, dedents);
}

#[test]
fn unicode_identifier_is_one_token() {
    let tokens = tokens_of("var café_2 = 1");
    assert!(matches!(&tokens[1].kind, TokenKind::Identifier(n) if n == "café_2"));
    assert_eq!(tokens[1].text, "café_2");
}

#[test]
fn token_offsets_count_utf8_bytes() {
    let tokens = tokens_of("é = 1");
    assert_eq!(tokens[1].span.offset, 3);
}

#[test]
fn text_tokens_come_in_source_order() {
    let source = "var s := \"é\" # note\nfunc f(a, b):\n\treturn a + b\n";
    let tokens = tokens_of(source);
    let text: Vec<&Token> = tokens
        .iter()
        .filter(|t| !matches!(t.kind, TokenKind::Indent | TokenKind::Dedent | TokenKind::Eof))
        .collect();
    for pair in text.windows(2) {
        assert!(pair[0].span.offset + pair[0].text.len() <= pair[1].span.offset);
    }
    for t in &text {
        assert_eq!(&source[t.span.offset..t.span.offset + t.text.len()], t.text);
    }
}

#[test]
fn members_sit_at_their_keyword_tokens() {
    let source = "class_name Foo\nextends Node\nsignal hit\nconst A = 1\nvar b := 2\nfunc c():\n\tpass\n";
    let tokens = tokens_of(source);
    let members = Parser::new(&tokens).parse();
    for m in &members {
        let t = tokens.iter().find(|t| t.span == m.span()).unwrap();
        let expected = match m {
            ClassMember::ClassNameDecl { .. } => matches!(t.kind, TokenKind::ClassName),
            ClassMember::ExtendsDecl { .. } => matches!(t.kind, TokenKind::Extends),
            ClassMember::Signal { .. } => matches!(t.kind, TokenKind::Signal),
            ClassMember::Constant { .. } => matches!(t.kind, TokenKind::Const),
            ClassMember::Variable { .. } => matches!(t.kind, TokenKind::Var),
            ClassMember::Function { .. } => matches!(t.kind, TokenKind::Func),
            _ => true,
        };
        assert!(expected);
        let named = match m {
            ClassMember::ClassNameDecl { name, name_span, .. }
            | ClassMember::Signal { name, name_span, .. }
            | ClassMember::Constant { name, name_span, .. }
            | ClassMember::Variable { name, name_span, .. }
            | ClassMember::Function { name, name_span, .. } => Some((name.clone(), *name_span)),
            _ => None,
        };
        if let Some((name, name_span)) = named {
            let i = tokens.iter().position(|t| t.span == m.span()).unwrap();
            assert!(matches!(&tokens[i + 1].kind, TokenKind::Identifier(n) if *n == name));
            assert_eq!(tokens[i + 1].span, name_span);
        }
    }
    assert_eq!(members.len(), 6);
}

#[test]
fn attached_annotations_come_from_annotation_tokens() {
    let tokens = tokens_of("@export_range(0, 10)\n@onready var a := 1\n@abstract\nsignal s\n");
    let members = Parser::new(&tokens).parse();
    match &members[0] {
        ClassMember::Variable { annotations, .. } => {
            let names: Vec<&str> = annotations.iter().map(|a| a.name.as_str()).collect();
            assert_eq!(names, vec!["export_range", "onready"]);
            for a in annotations {
                let t = tokens.iter().find(|t| t.span == a.span).unwrap();
                assert!(matches!(&t.kind, TokenKind::Annotation(n) if *n == a.name));
            }
        },
        _ => panic!("expected a variable"),
    }
    match &members[1] {
        ClassMember::ClassAnnotation { name, span } => {
            assert_eq!(name, "abstract");
            assert!(tokens.iter().any(|t| t.span == *span && matches!(t.kind, TokenKind::Annotation(_))));
        },
        _ => panic!("expected a class annotation"),
    }
}

#[test]
fn parameters_and_enum_items_are_identifier_tokens() {
    let tokens = tokens_of("signal moved(from: Vector2, to)\nenum State { IDLE, RUN = 2 }\nfunc f(a := 1, b: int):\n\tpass\n");
    let members = Parser::new(&tokens).parse();
    let is_ident_at = |name: &str, span: Span| {
        tokens.iter().any(|t| t.span == span && matches!(&t.kind, TokenKind::Identifier(n) if n == name))
    };
    let mut seen = 0;
    for m in &members {
        match m {
            ClassMember::Signal { parameters, .. } | ClassMember::Function { parameters, .. } => {
                for p in parameters {
                    assert!(is_ident_at(&p.name, p.span));
                    seen += 1;
                }
            },
            ClassMember::Enum { members: items, .. } => {
                let names: Vec<&str> = items.iter().map(|e| e.name.as_str()).collect();
                assert_eq!(names, vec!["IDLE", "RUN"]);
                for e in items {
                    assert!(is_ident_at(&e.name, e.span));
                }
            },
            _ => {},
        }
    }
    assert_eq!(seen, 4);
}

#[test]
fn comments_and_script_annotations_keep_their_token_text() {
    let tokens = tokens_of("@tool\n## Player docs\n# plain note\nextends Node\n");
    let members = Parser::new(&tokens).parse();
    assert!(matches!(members[0], ClassMember::ToolAnnotation { .. }));
    let doc = tokens.iter().find(|t| t.span == members[1].span()).unwrap();
    match (&members[1], &doc.kind) {
        (ClassMember::DocComment { text, .. }, TokenKind::DocComment(t)) => assert_eq!(text, t),
        _ => panic!("expected a doc comment"),
    }
    let note = tokens.iter().find(|t| t.span == members[2].span()).unwrap();
    match (&members[2], &note.kind) {
        (ClassMember::Comment { text, is_doc, .. }, TokenKind::Comment(t)) => {
            assert_eq!(text, t);
            assert!(!is_doc);
        },
        _ => panic!("expected a comment"),
    }
}

#[test]
fn type_hint_present_exactly_after_a_colon() {
    let members = parse("var a: int = 1\nvar b := 2\nvar c = 3\nconst D: float = 1.0\nstatic var e := 4\n");
    let hints: Vec<Option<String>> = members
        .iter()
        .map(|m| match m {
            ClassMember::Variable { type_hint, .. }
            | ClassMember::Constant { type_hint, .. }
            | ClassMember::StaticVariable { type_hint, .. } => type_hint.clone(),
            _ => panic!("unexpected member"),
        })
        .collect();
    assert_eq!(
        hints,
        vec![Some("int".to_string()), Some(":=".to_string()), None, Some("float".to_string()), Some(":=".to_string())]
    );
}

#[test]
fn declaration_without_identifier_has_empty_name() {
    let members = parse("func (x):\n\tpass\n");
    match &members[0] {
        ClassMember::Function { name, name_span, .. } => {
            assert!(name.is_empty());
            assert_eq!(*name_span, Span::new(0, 0, 0, 0));
        },
        _ => panic!("expected a function"),
    }
}

#[test]
fn member_categories_and_end_lines() {
    let members = parse(
        "static func make() -> void:\n\tpass\nfunc _ready() -> void:\n\tpass\n\tpass\nclass Inner:\n\tvar a: int\n\tfunc h():\n\t\tpass\n",
    );
    let functions: Vec<&ClassMember> = members.iter().filter(|m| matches!(m, ClassMember::Function { .. })).collect();
    assert_eq!(functions[0].category_name(), "static method");
    assert_eq!(functions[0].ordering_category(), 13);
    assert_eq!(functions[1].category_name(), "virtual/override method");
    assert_eq!(functions[1].ordering_category(), 12);
    assert_eq!(functions[1].end_line(), 5);
    let inner = members.iter().find(|m| matches!(m, ClassMember::InnerClass { .. })).unwrap();
    assert_eq!(inner.category_name(), "inner class");
    assert_eq!(inner.ordering_category(), 14);
    assert_eq!(inner.end_line(), 9);
}

#[test]
fn variable_categories_follow_annotations() {
    let members = parse("@export_range(0, 1) var a: float\n@onready var b: Node = $B\nvar c: int\n");
    let vars: Vec<&ClassMember> = members.iter().filter(|m| matches!(m, ClassMember::Variable { .. })).collect();
    assert_eq!(vars[0].category_name(), "@export variable");
    assert_eq!(vars[0].ordering_category(), 9);
    assert_eq!(vars[1].category_name(), "@onready variable");
    assert_eq!(vars[1].ordering_category(), 11);
    assert_eq!(vars[2].category_name(), "variable declaration");
    assert_eq!(vars[2].ordering_category(), 10);
}

#[test]
fn for_each_member_visits_inner_members_after_their_class() {
    let members = parse("class A:\n\tvar x: int\nvar y: int\n");
    let visited = for_each_member(&members);
    let names: Vec<String> = visited
        .iter()
        .filter_map(|m| match m {
            ClassMember::InnerClass { name, .. } | ClassMember::Variable { name, .. } => Some(name.clone()),
            _ => None,
        })
        .collect();
    assert_eq!(names, vec!["A".to_string(), "x".to_string(), "y".to_string()]);
}

#[test]
fn first_declaration_after_blank_lines_is_the_first_member() {
    let tokens = tokens_of("\n\nstatic func make():\n\tpass\nvar x = 1\n");
    let members = Parser::new(&tokens).parse();
    let func_token = tokens.iter().find(|t| matches!(t.kind, TokenKind::Func)).unwrap();
    assert!(matches!(members[0], ClassMember::Function { is_static: true, .. }));
    assert_eq!(members[0].span(), func_token.span);
    assert!(parse("").is_empty());
    assert!(parse("\n\n\n").is_empty());
}

#[test]
fn inner_class_body_starts_with_its_first_declaration() {
    let members = parse("class Inner:\n\n\tsignal done\n\tvar n := 0\n");
    match &members[0] {
        ClassMember::InnerClass { members: inner, .. } => {
            assert!(matches!(&inner[0], ClassMember::Signal { name, .. } if name == "done"));
            assert_eq!(inner.len(), 2);
        },
        _ => panic!("expected an inner class"),
    }
}

#[test]
fn tool_comes_before_icon_before_class_name() {
    let span = Span::new(1, 1, 0, 0);
    let t = ClassMember::ToolAnnotation { span };
    let i = ClassMember::IconAnnotation { span };
    let c = ClassMember::ClassNameDecl { name: "A".to_string(), name_span: span, span };
    assert!(t.ordering_category() < i.ordering_category());
    assert!(i.ordering_category() < c.ordering_category());
}

#[test]
fn final_newline_does_not_add_a_line() {
    let src = "# note\n".repeat(1000);
    let diags = lint_source(&src, "test.gd", &Config::default());
    assert!(!diags.iter().any(|d| d.rule == "quality/max-file-length"));
    let longer = "# note\n".repeat(1001);
    let diags = lint_source(&longer, "test.gd", &Config::default());
    let found = with_rule(&diags, "quality/max-file-length");
    assert_eq!(found[0].message, "file is 1001 lines long (max 1000)");
}

fn body_file(lines: &[&str], name: &str, body: usize) -> ScriptFile {
    let mut f = function(name, 1, body);
    if let ClassMember::Function { name: n, .. } = &mut f {
        *n = name.to_string();
    }
    ScriptFile { path: "a.gd".to_string(), lines: lines.iter().map(|l| l.to_string()).collect(), members: vec![f] }
}

#[test]
fn return_value_assignment_is_not_a_return() {
    let file = body_file(&["func f(x):", "\tif x:", "\t\treturn_value = 1", "\telse:", "\t\treturn_value = 2"], "f", 4);
    let mut diags = Vec::new();
    check_no_else_return(&file, &mut diags);
    assert!(diags.is_empty());
    let file = body_file(&["func f(x):", "\tif x:", "\t\treturn 1", "\telse:", "\t\treturn 2"], "f", 4);
    check_no_else_return(&file, &mut diags);
    assert_eq!(diags.len(), 1);
}

#[test]
fn format_specifier_in_string_is_not_a_node_lookup() {
    let file = body_file(&["func _process(delta: float) -> void:", "\tlabel.text = \"Score: %d\" % score"], "_process", 1);
    let mut diags = Vec::new();
    check_process_get_node(&file, &mut diags);
    assert!(diags.is_empty());
    let file = body_file(&["func _process(delta: float) -> void:", "\tvar p = %Player"], "_process", 1);
    check_process_get_node(&file, &mut diags);
    assert_eq!(diags.len(), 1);
}

#[test]
fn nesting_depth_counts_block_levels_with_spaces() {
    let file = body_file(&["func foo() -> void:", "    if true:", "        if true:", "            pass"], "foo", 3);
    let mut diags = Vec::new();
    check_max_nesting_depth(&file, &Config::default(), &mut diags);
    assert!(diags.is_empty());
    let deep = body_file(
        &["func foo():", "    if a:", "        if b:", "            if c:", "                if d:", "                    if e:", "                        pass"],
        "foo",
        6,
    );
    check_max_nesting_depth(&deep, &Config::default(), &mut diags);
    assert_eq!(diags.len(), 1);
    assert_eq!(diags[0].message, "function 'foo' has nesting depth 5 (max 4)");
}

#[test]
fn enum_values_are_not_dictionary_keys_and_nested_literals_are_checked() {
    let file = ScriptFile { path: "a.gd".to_string(), lines: vec![], members: vec![] };
    let tokens = tokens_of("enum State {A = 0, B = 1}\n");
    let mut diags = Vec::new();
    check_duplicate_dict_key(&tokens, &file, &mut diags);
    assert!(diags.is_empty());
    let tokens = tokens_of("var d = {\"a\": {\"k\": 1, \"k\": 2}}\n");
    check_duplicate_dict_key(&tokens, &file, &mut diags);
    assert_eq!(diags.len(), 1);
    assert_eq!(diags[0].message, "duplicate dictionary key 'k' (first seen at line 1)");
}

#[test]
fn standalone_ignore_reaches_the_next_code_line() {
    let src = "# gdstyle:ignore=naming/variable-name-snake-case\n# why the name stays\n\nvar BadName: int = 5\n";
    let diags = lint_source(src, "a.gd", &Config::default());
    assert!(!diags.iter().any(|d| d.rule == "naming/variable-name-snake-case"));
    let plain = lint_source("# note\nvar BadName: int = 5\n", "a.gd", &Config::default());
    assert!(plain.iter().any(|d| d.rule == "naming/variable-name-snake-case"));
}

#[test]
fn empty_token_list_parses_to_nothing() {
    let tokens: Vec<Token> = Vec::new();
    assert!(Parser::new(&tokens).parse().is_empty());
}

#[test]
fn lexemes_follow_longest_match_and_literal_extents() {
    let kinds = |s: &str| -> Vec<TokenKind> {
        tokens_of(s)
            .into_iter()
            .map(|t| t.kind)
            .filter(|k| !matches!(k, TokenKind::Newline | TokenKind::Eof))
            .collect()
    };
    assert_eq!(kinds(">>= ** ..."), vec![TokenKind::GreaterGreaterAssign, TokenKind::StarStar, TokenKind::Ellipsis]);
    assert_eq!(kinds("1_000_000 0xff 0b1010"), vec![TokenKind::Integer(1000000), TokenKind::Integer(255), TokenKind::Integer(10)]);
    let toks = tokens_of("var s = \"no closing quote\n");
    let errors: Vec<&Token> = toks.iter().filter(|t| matches!(t.kind, TokenKind::Error(_))).collect();
    assert_eq!(errors.len(), 1);
    assert_eq!(errors[0].kind, TokenKind::Error("unterminated string".to_string()));
    assert_eq!(errors[0].text, "\"no closing quote\n");
    let toks = tokens_of("var s = \"line one\nline two\"\n");
    assert!(toks.iter().any(|t| matches!(&t.kind, TokenKind::String(info) if info.value == "line one\nline two")));
}

#[test]
fn mixed_mid_line_spaces_and_tabs_separate_tokens() {
    let toks = tokens_of("var x = 1 \t \t+ 2\n");
    assert!(!toks.iter().any(|t| matches!(t.kind, TokenKind::Error(_))));
    let plus = toks.iter().find(|t| matches!(t.kind, TokenKind::Plus)).unwrap();
    assert_eq!(plus.span.column, 14);
    assert_eq!(plus.span.length, 1);
}

#[test]
fn parsing_stops_at_the_first_eof() {
    let mut tokens = tokens_of("var a = 1\n");
    tokens.extend(tokens_of("var b = 2\n"));
    let members = Parser::new(&tokens).parse();
    assert_eq!(members.len(), 1);
    assert!(matches!(&members[0], ClassMember::Variable { name, .. } if name == "a"));
}
