use lib::lexer::Lexer;
use lib::token::{QuoteStyle, StringPrefix, Token, TokenKind};

fn tokenize(source: &str) -> Vec<Token> {
    let mut lexer = Lexer::new(source);
    lexer.tokenize()
}

fn token_kinds(source: &str) -> Vec<TokenKind> {
    tokenize(source)
        .into_iter()
        .map(|t| t.kind)
        .filter(|k| !matches!(k, TokenKind::Newline | TokenKind::Eof))
        .collect()
}

#[test]
fn empty_source() {
    let tokens = tokenize("");
    assert_eq!(tokens.len(), 1);
    assert_eq!(tokens[0].kind, TokenKind::Eof);
}

#[test]
fn simple_integer() {
    let kinds = token_kinds("42");
    assert_eq!(kinds, vec![TokenKind::Integer(42)]);
}

#[test]
fn hex_number() {
    let kinds = token_kinds("0xff");
    assert_eq!(kinds, vec![TokenKind::Integer(255)]);
}

#[test]
fn binary_number() {
    let kinds = token_kinds("0b1010");
    assert_eq!(kinds, vec![TokenKind::Integer(10)]);
}

#[test]
#[allow(clippy::approx_constant)]
fn float_number() {
    let kinds = token_kinds("3.14");
    assert_eq!(kinds.len(), 1);
    assert!(matches!(&kinds[0], TokenKind::Float(f) if f.digits.parse::<f64>().unwrap() == 3.14));
}

#[test]
fn number_with_underscores() {
    let kinds = token_kinds("1_000_000");
    assert_eq!(kinds, vec![TokenKind::Integer(1_000_000)]);
}

#[test]
fn scientific_notation() {
    let kinds = token_kinds("1e10");
    assert_eq!(kinds.len(), 1);
    assert!(matches!(&kinds[0], TokenKind::Float(f) if f.digits.parse::<f64>().unwrap() == 1e10));
}

#[test]
fn double_quoted_string() {
    let kinds = token_kinds(r#""hello""#);
    assert!(
        matches!(kinds[0], TokenKind::String(ref s) if s.value == "hello" && s.quote_style == QuoteStyle::Double)
    );
}

#[test]
fn single_quoted_string() {
    let kinds = token_kinds("'world'");
    assert!(
        matches!(kinds[0], TokenKind::String(ref s) if s.value == "world" && s.quote_style == QuoteStyle::Single)
    );
}

#[test]
fn string_name_literal() {
    let kinds = token_kinds("&\"MySignal\"");
    assert!(
        matches!(kinds[0], TokenKind::String(ref s) if s.prefix == StringPrefix::StringName)
    );
}

#[test]
fn node_path_literal() {
    let kinds = token_kinds("^\"UI/HealthBar\"");
    assert!(matches!(kinds[0], TokenKind::String(ref s) if s.prefix == StringPrefix::NodePath));
}

#[test]
fn triple_quoted_string() {
    let source = r#""""hello
world""""#;
    let kinds = token_kinds(source);
    assert!(matches!(kinds[0], TokenKind::String(ref s) if s.is_multiline));
}

#[test]
fn keywords() {
    let kinds = token_kinds("func var const if else for while return");
    assert_eq!(
        kinds,
        vec![
            TokenKind::Func,
            TokenKind::Var,
            TokenKind::Const,
            TokenKind::If,
            TokenKind::Else,
            TokenKind::For,
            TokenKind::While,
            TokenKind::Return,
        ]
    );
}

#[test]
fn boolean_literals() {
    let kinds = token_kinds("true false");
    assert_eq!(kinds, vec![TokenKind::Bool(true), TokenKind::Bool(false)]);
}

#[test]
fn null_literal() {
    let kinds = token_kinds("null");
    assert_eq!(kinds, vec![TokenKind::Null]);
}

#[test]
fn identifiers() {
    let kinds = token_kinds("player_speed maxHP _private");
    assert_eq!(
        kinds,
        vec![
            TokenKind::Identifier("player_speed".to_string()),
            TokenKind::Identifier("maxHP".to_string()),
            TokenKind::Identifier("_private".to_string()),
        ]
    );
}

#[test]
fn annotation() {
    let kinds = token_kinds("@export");
    assert_eq!(kinds, vec![TokenKind::Annotation("export".to_string())]);
}

#[test]
fn export_annotations() {
    let kinds = token_kinds("@export_range @onready @tool");
    assert_eq!(
        kinds,
        vec![
            TokenKind::Annotation("export_range".to_string()),
            TokenKind::Annotation("onready".to_string()),
            TokenKind::Annotation("tool".to_string()),
        ]
    );
}

#[test]
fn operators() {
    let kinds = token_kinds("+ - * / % ** == != <= >= = += -> && ||");
    assert_eq!(
        kinds,
        vec![
            TokenKind::Plus,
            TokenKind::Minus,
            TokenKind::Star,
            TokenKind::Slash,
            TokenKind::Percent,
            TokenKind::StarStar,
            TokenKind::Equal,
            TokenKind::NotEqual,
            TokenKind::LessEqual,
            TokenKind::GreaterEqual,
            TokenKind::Assign,
            TokenKind::PlusAssign,
            TokenKind::Arrow,
            TokenKind::AmpersandAmpersand,
            TokenKind::PipePipe,
        ]
    );
}

#[test]
fn delimiters() {
    let kinds = token_kinds("( ) [ ] { } , : ;");
    assert_eq!(
        kinds,
        vec![
            TokenKind::LeftParen,
            TokenKind::RightParen,
            TokenKind::LeftBracket,
            TokenKind::RightBracket,
            TokenKind::LeftBrace,
            TokenKind::RightBrace,
            TokenKind::Comma,
            TokenKind::Colon,
            TokenKind::Semicolon,
        ]
    );
}

#[test]
fn dots() {
    let kinds = token_kinds(". .. ...");
    assert_eq!(
        kinds,
        vec![TokenKind::Dot, TokenKind::DotDot, TokenKind::Ellipsis]
    );
}

#[test]
fn comments() {
    let kinds = token_kinds("# this is a comment");
    assert_eq!(
        kinds,
        vec![TokenKind::Comment(" this is a comment".to_string())]
    );
}

#[test]
fn doc_comments() {
    let kinds = token_kinds("## This is documentation");
    assert_eq!(
        kinds,
        vec![TokenKind::DocComment(" This is documentation".to_string())]
    );
}

#[test]
fn indentation_produces_indent_dedent() {
    let source = "if true:\n\tpass\n";
    let kinds: Vec<TokenKind> = tokenize(source)
        .into_iter()
        .map(|t| t.kind)
        .filter(|k| !matches!(k, TokenKind::Eof))
        .collect();
    assert!(kinds.contains(&TokenKind::Indent));
    assert!(kinds.contains(&TokenKind::Dedent));
}

#[test]
fn nested_indentation() {
    let source = "if true:\n\tif false:\n\t\tpass\n";
    let tokens = tokenize(source);
    let indent_count = tokens
        .iter()
        .filter(|t| t.kind == TokenKind::Indent)
        .count();
    let dedent_count = tokens
        .iter()
        .filter(|t| t.kind == TokenKind::Dedent)
        .count();
    assert_eq!(indent_count, 2);
    assert_eq!(dedent_count, 2);
}

#[test]
fn no_newline_inside_parens() {
    let source = "func foo(\n\tx: int,\n\ty: int\n):\n\tpass\n";
    let tokens = tokenize(source);
    // Inside parens, newlines should be suppressed.
    // The first newline token should only appear after the closing paren+colon.
    let newline_count = tokens
        .iter()
        .filter(|t| t.kind == TokenKind::Newline)
        .count();
    // We should get newlines for the ): line and the pass line, but not inside parens.
    assert!(newline_count <= 3);
}

#[test]
fn gdscript_function_declaration() {
    let source = "func take_damage(amount: int) -> void:";
    let kinds = token_kinds(source);
    assert_eq!(
        kinds,
        vec![
            TokenKind::Func,
            TokenKind::Identifier("take_damage".to_string()),
            TokenKind::LeftParen,
            TokenKind::Identifier("amount".to_string()),
            TokenKind::Colon,
            TokenKind::Identifier("int".to_string()),
            TokenKind::RightParen,
            TokenKind::Arrow,
            TokenKind::Void,
            TokenKind::Colon,
        ]
    );
}

#[test]
fn signal_declaration() {
    let source = "signal health_changed(old_value: int, new_value: int)";
    let kinds = token_kinds(source);
    assert_eq!(kinds[0], TokenKind::Signal);
    assert_eq!(
        kinds[1],
        TokenKind::Identifier("health_changed".to_string())
    );
}

#[test]
fn enum_declaration() {
    let source = "enum State { IDLE, WALKING, RUNNING }";
    let kinds = token_kinds(source);
    assert_eq!(kinds[0], TokenKind::Enum);
    assert_eq!(kinds[1], TokenKind::Identifier("State".to_string()));
}

#[test]
fn dollar_sign_node_path() {
    let kinds = token_kinds("$Label");
    assert_eq!(
        kinds,
        vec![
            TokenKind::Dollar,
            TokenKind::Identifier("Label".to_string()),
        ]
    );
}

#[test]
fn boolean_operators() {
    let kinds = token_kinds("and or not");
    assert_eq!(kinds, vec![TokenKind::And, TokenKind::Or, TokenKind::Not]);
}

#[test]
fn raw_string() {
    let kinds = token_kinds("r\"hello\\nworld\"");
    assert!(
        matches!(kinds[0], TokenKind::String(ref s) if s.prefix == StringPrefix::Raw && s.value == "hello\\nworld")
    );
}

#[test]
fn line_continuation() {
    let source = "var x = 1 +\\\n\t2";
    let kinds = token_kinds(source);
    // The backslash-newline should be consumed, so we get a continuous expression.
    assert!(kinds.contains(&TokenKind::Plus));
    assert!(kinds.contains(&TokenKind::Integer(2)));
}

#[test]
fn class_name_keyword() {
    let kinds = token_kinds("class_name Player");
    assert_eq!(
        kinds,
        vec![
            TokenKind::ClassName,
            TokenKind::Identifier("Player".to_string()),
        ]
    );
}

#[test]
fn match_and_when() {
    let kinds = token_kinds("match when");
    assert_eq!(kinds, vec![TokenKind::Match, TokenKind::When]);
}

#[test]
fn regular_string_may_span_lines() {
    // GDScript 4 allows a literal newline in a regular double-quoted
    // string; it is not an unterminated string.
    let tokens = tokenize("var s = \"line one\nline two\"\n");
    assert!(
        !tokens
            .iter()
            .any(|t| matches!(t.kind, TokenKind::Error(_))),
        "multi-line regular string must not be an Error token: {:?}",
        tokens
    );
    assert!(tokens.iter().any(|t| matches!(
        &t.kind,
        TokenKind::String(info) if info.value == "line one\nline two"
    )));
}

#[test]
fn genuinely_unterminated_string_is_an_error() {
    // A string with no closing quote before EOF is still an error.
    let tokens = tokenize("var s = \"no closing quote\n");
    assert!(tokens
        .iter()
        .any(|t| matches!(t.kind, TokenKind::Error(_))));
}

#[test]
fn escape_sequence_in_string() {
    let kinds = token_kinds(r#""hello\nworld""#);
    assert!(matches!(kinds[0], TokenKind::String(ref s) if s.value.contains("\\n")));
}

#[test]
fn multiline_string_preserves_newlines() {
    let source = "\"\"\"line1\nline2\nline3\"\"\"";
    let kinds = token_kinds(source);
    assert!(matches!(kinds[0], TokenKind::String(ref s) if s.value.contains('\n')));
}

#[test]
fn full_gdscript_snippet() {
    let source = r#"class_name Player
extends CharacterBody2D

@export var speed: float = 200.0

func _ready() -> void:
	pass
"#;
    let tokens = tokenize(source);
    // Should tokenize without errors.
    let errors: Vec<&Token> = tokens
        .iter()
        .filter(|t| matches!(t.kind, TokenKind::Error(_)))
        .collect();
    assert!(errors.is_empty(), "unexpected errors: {:?}", errors);
}

#[test]
fn doc_comment_at_lower_indent_emits_dedents() {
    // Regression: a `## doc` line at column 1 appearing while the lexer
    // is still inside an indented function body used to be swallowed
    // with no dedent emitted. The parser would then consume the doc as
    // part of the previous function's body, and the formatter would
    // detach it from the function it's actually documenting by
    // inserting the canonical blank-line gap between top-level members.
    let source = "func a():\n\tif true:\n\t\tpass\n## doc for b\nfunc b():\n\tpass\n";
    let tokens = tokenize(source);
    let doc_pos = tokens
        .iter()
        .position(|t| matches!(t.kind, TokenKind::DocComment(_)))
        .expect("DocComment should be emitted");
    let dedents_before_doc = tokens[..doc_pos]
        .iter()
        .filter(|t| t.kind == TokenKind::Dedent)
        .count();
    // Two indents were opened (function body + if body); both must be
    // closed BEFORE the doc comment so the doc lives at top level.
    assert_eq!(
        dedents_before_doc, 2,
        "expected 2 dedents before DocComment, got {dedents_before_doc} (tokens: {tokens:?})"
    );
}

#[test]
fn comment_at_lower_indent_followed_by_deeper_real_line_preserves_block() {
    // Counterpart to `doc_comment_at_lower_indent_emits_dedents`: a
    // col-1 comment sandwiched between two deeper-indented body
    // statements is mid-body noise, not a block boundary. The
    // peek-ahead must recognise that the next real line is deeper
    // than the comment and refuse to dedent — otherwise the
    // function gets split in half and the lines after the comment
    // look orphaned.
    let source = "func a():\n\tif true:\n\t\tvar x = 1\n# col-1 mid-body\n\t\tvar y = 2\n\t\treturn x + y\n";
    let tokens = tokenize(source);
    let comment_pos = tokens
        .iter()
        .position(|t| matches!(t.kind, TokenKind::Comment(_)))
        .expect("Comment should be emitted");
    let dedents_before_comment = tokens[..comment_pos]
        .iter()
        .filter(|t| t.kind == TokenKind::Dedent)
        .count();
    assert_eq!(
        dedents_before_comment, 0,
        "mid-body col-1 comment must not split the enclosing block"
    );
}

#[test]
fn comment_at_deeper_indent_opens_block() {
    // Regression for issue #5: an inner-class body whose first
    // line is a comment used to NOT push an Indent onto the
    // stack (the lexer preserved the indent stack for any
    // comment-only line). The parser's `parse_indented_block`
    // then saw no Indent, bailed with an empty body, and the
    // inner-class members fell back to the outer scope —
    // tripping `order/class-member-order` on every one.
    //
    // The deeper-indent comment must now open the block right
    // away, so the body is parsed inside the inner class.
    let source = "class Bar:\n\t## doc\n\tvar a: int\n";
    let tokens = tokenize(source);
    let var_pos = tokens
        .iter()
        .position(|t| t.kind == TokenKind::Var)
        .expect("Var token should be present");
    let indents_before_var = tokens[..var_pos]
        .iter()
        .filter(|t| t.kind == TokenKind::Indent)
        .count();
    assert_eq!(
        indents_before_var, 1,
        "an Indent must be emitted before the doc comment that opens the inner-class body, got tokens: {:?}",
        tokens
    );
}

#[test]
fn comment_at_same_indent_preserves_block() {
    // Counterpart to the regression above: a comment at the same indent
    // as the current body is part of the body and MUST NOT trigger a
    // dedent (otherwise inline comments would tear functions apart).
    let source = "func a():\n\t# inside\n\tpass\n";
    let tokens = tokenize(source);
    let comment_pos = tokens
        .iter()
        .position(|t| matches!(t.kind, TokenKind::Comment(_)))
        .expect("Comment should be emitted");
    let dedents_before_comment = tokens[..comment_pos]
        .iter()
        .filter(|t| t.kind == TokenKind::Dedent)
        .count();
    assert_eq!(
        dedents_before_comment, 0,
        "in-body comment must not dedent the block"
    );
}

#[test]
fn one_tab_is_not_one_space_of_indent() {
    // Regression: a tab and a space both counted as a flat +1, so a
    // tab-indented body and a one-space-indented body compared equal.
    // A tab now counts as TAB_WIDTH columns.
    let tab_body = tokenize("func f():\n\tpass\n");
    let space_body = tokenize("func f():\n pass\n");
    let indent_span = |toks: &[Token]| {
        toks.iter()
            .find(|t| t.kind == TokenKind::Indent)
            .map(|t| t.span.length)
    };
    assert_eq!(
        indent_span(&tab_body),
        Some(4),
        "tab should count as 4 columns"
    );
    assert_eq!(
        indent_span(&space_body),
        Some(1),
        "space should count as 1 column"
    );
}

#[test]
fn continuation_keeps_one_logical_line() {
    let tokens = tokenize("var x = 1 +\\\n\t2");
    let kinds: Vec<TokenKind> = tokens.iter().map(|t| t.kind.clone()).collect();
    assert_eq!(
        kinds,
        vec![
            TokenKind::Var,
            TokenKind::Identifier("x".to_string()),
            TokenKind::Assign,
            TokenKind::Integer(1),
            TokenKind::Plus,
            TokenKind::Integer(2),
            TokenKind::Eof,
        ]
    );
    assert_eq!(tokens[5].span.line, 2);
}

#[test]
fn unterminated_string_error_sits_at_the_opening_quote() {
    let tokens = tokenize("var s = \"no closing quote\n");
    let errors: Vec<&Token> = tokens
        .iter()
        .filter(|t| matches!(t.kind, TokenKind::Error(_)))
        .collect();
    assert_eq!(errors.len(), 1);
    assert_eq!(errors[0].kind, TokenKind::Error("unterminated string".to_string()));
    assert_eq!(errors[0].span.line, 1);
    assert_eq!(errors[0].span.column, 9);
    assert_eq!(errors[0].text, "\"no closing quote\n");
    assert_eq!(tokens.last().unwrap().kind, TokenKind::Eof);
}

#[test]
fn dedent_and_eof_tokens_are_empty() {
    let tokens = tokenize("func f():\n\tpass\n");
    for t in tokens.iter() {
        if matches!(t.kind, TokenKind::Dedent | TokenKind::Eof) {
            assert_eq!(t.span.length, 0);
            assert_eq!(t.text, "");
        }
    }
    assert!(tokens.iter().any(|t| t.kind == TokenKind::Dedent));
}

#[test]
fn shift_assign_is_one_token() {
    let tokens = tokenize(">>=");
    assert_eq!(tokens.len(), 2);
    assert_eq!(tokens[0].kind, TokenKind::GreaterGreaterAssign);
    assert_eq!(tokens[0].text, ">>=");
    assert_eq!(tokens[0].span.line, 1);
    assert_eq!(tokens[0].span.column, 1);
    assert_eq!(tokens[0].span.offset, 0);
    assert_eq!(tokens[0].span.length, 3);
    assert_eq!(tokens[1].kind, TokenKind::Eof);
}

#[test]
fn nested_blocks_open_and_close_twice() {
    let tokens = tokenize("if true:\n\tif false:\n\t\tpass\n");
    let indents = tokens.iter().filter(|t| t.kind == TokenKind::Indent).count();
    let dedents = tokens.iter().filter(|t| t.kind == TokenKind::Dedent).count();
    assert_eq!(indents, 2);
    assert_eq!(dedents, 2);
}

#[test]
fn token_lines_count_the_newlines_before_them() {
    let tokens = tokenize("a\nb\n\nc");
    let lines: Vec<(TokenKind, usize)> = tokens
        .iter()
        .filter(|t| matches!(t.kind, TokenKind::Identifier(_)))
        .map(|t| (t.kind.clone(), t.span.line))
        .collect();
    assert_eq!(
        lines,
        vec![
            (TokenKind::Identifier("a".to_string()), 1),
            (TokenKind::Identifier("b".to_string()), 2),
            (TokenKind::Identifier("c".to_string()), 4),
        ]
    );
}
