use vstd::prelude::*;

verus! {

/// A position in the source: 1-based line and column, byte offset and byte length.
#[derive(Clone, Copy, Debug, PartialEq, Eq, Structural)]
pub struct Span {
    pub line: usize,
    pub column: usize,
    pub offset: usize,
    pub length: usize,
}

impl Span {
    pub fn new(line: usize, column: usize, offset: usize, length: usize) -> (s: Span)
        ensures
            s == (Span { line, column, offset, length }),
    {
        Span { line, column, offset, length }
    }
}

/// Quote character used by a string literal.
#[derive(Clone, Copy, Debug, PartialEq, Eq, Structural)]
pub enum QuoteStyle {
    Single,
    Double,
}

/// Prefix of a string literal (`r"..."`, `&"..."`, `^"..."`).
#[derive(Clone, Copy, Debug, PartialEq, Eq, Structural)]
pub enum StringPrefix {
    Bare,
    Raw,
    StringName,
    NodePath,
}

/// Decoded information about a string literal.
#[derive(Clone, Debug, PartialEq)]
pub struct StringInfo {
    pub value: String,
    pub quote_style: QuoteStyle,
    pub prefix: StringPrefix,
    pub is_multiline: bool,
}

/// A float literal, kept as its digits with the `_` separators removed.
/// Its numeric value is what `str::parse::<f64>` gives for `digits`.
#[derive(Clone, Debug, PartialEq)]
pub struct FloatLiteral {
    pub digits: String,
}

/// The kind of a lexical token.
#[derive(Clone, Debug, PartialEq)]
pub enum TokenKind {
    // Literals
    Identifier(String),
    Integer(i64),
    Float(FloatLiteral),
    String(StringInfo),
    Bool(bool),
    Null,
    Annotation(String),
    Comment(String),
    DocComment(String),
    // Keywords
    ClassName,
    Extends,
    Class,
    Func,
    Var,
    Const,
    Signal,
    Enum,
    Static,
    If,
    Elif,
    Else,
    For,
    While,
    Match,
    When,
    Break,
    Continue,
    Pass,
    Return,
    As,
    Is,
    In,
    Not,
    And,
    Or,
    Self_,
    Super,
    Await,
    Assert,
    Breakpoint,
    Preload,
    Void,
    Trait,
    // Operators
    Plus,
    Minus,
    Star,
    StarStar,
    Slash,
    Percent,
    Equal,
    NotEqual,
    Less,
    LessEqual,
    Greater,
    GreaterEqual,
    Assign,
    PlusAssign,
    MinusAssign,
    StarAssign,
    StarStarAssign,
    SlashAssign,
    PercentAssign,
    AmpersandAssign,
    PipeAssign,
    CaretAssign,
    LessLessAssign,
    GreaterGreaterAssign,
    Arrow,
    AmpersandAmpersand,
    PipePipe,
    Bang,
    Ampersand,
    Pipe,
    Caret,
    Tilde,
    LessLess,
    GreaterGreater,
    Dot,
    DotDot,
    Ellipsis,
    Dollar,
    UniqueNodeMarker,
    // Delimiters
    LeftParen,
    RightParen,
    LeftBracket,
    RightBracket,
    LeftBrace,
    RightBrace,
    Comma,
    Colon,
    Semicolon,
    // Structure
    Newline,
    Indent,
    Dedent,
    Eof,
    Error(String),
}

/// A token: its kind, where it is, and the source text it was read from.
#[derive(Clone, Debug, PartialEq)]
pub struct Token {
    pub kind: TokenKind,
    pub span: Span,
    pub text: String,
}

impl Token {
    pub fn new(kind: TokenKind, span: Span, text: String) -> (t: Token)
        ensures
            t == (Token { kind, span, text }),
    {
        Token { kind, span, text }
    }
}

} // verus!
