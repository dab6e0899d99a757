use vstd::prelude::*;

use crate::ast::{flatten, member_span, AnnotationInfo, ClassMember, EnumMember, Parameter};
use crate::lexer::MAX_SOURCE_CHARS;
use crate::text::{chars_of, push_chars, string_from_chars};
use crate::token::{Span, Token, TokenKind};

verus! {

/// Some token at position `p` or after ends the stream.
pub open spec fn eof_from(tokens: Seq<Token>, p: int) -> bool {
    exists|e: int| p <= e < tokens.len() && (#[trigger] tokens[e]).kind is Eof
}

/// A token stream the parser can read: it holds an `Eof`, where reading
/// stops, and no token's line is `usize::MAX` (so a body's line count, the
/// difference of two lines plus one, fits in a `usize`).
pub open spec fn tokens_ok(tokens: Seq<Token>) -> bool {
    &&& eof_from(tokens, 0)
    &&& forall|i: int| 0 <= i < tokens.len() ==> (#[trigger] tokens[i]).span.line < usize::MAX
}

/// The first position at or after `a` whose token is not a newline.
pub open spec fn after_newlines(tokens: Seq<Token>, a: int) -> int
    decreases tokens.len() - a,
{
    if 0 <= a < tokens.len() && tokens[a].kind is Newline {
        after_newlines(tokens, a + 1)
    } else {
        a
    }
}

/// Newlines and comments: what separates declarations.
pub open spec fn is_trivia(k: TokenKind) -> bool {
    k is Newline || k is Comment || k is DocComment
}

/// The first position at or after `a` whose token is not a newline or a comment.
pub open spec fn after_trivia(tokens: Seq<Token>, a: int) -> int
    decreases tokens.len() - a,
{
    if 0 <= a < tokens.len() && is_trivia(tokens[a].kind) {
        after_trivia(tokens, a + 1)
    } else {
        a
    }
}

pub proof fn lemma_after_trivia_ge(tokens: Seq<Token>, a: int)
    requires
        0 <= a,
    ensures
        a <= after_trivia(tokens, a),
    decreases tokens.len() - a,
{
    if a < tokens.len() && is_trivia(tokens[a].kind) {
        lemma_after_trivia_ge(tokens, a + 1);
    }
}

/// From token `q` on, only newlines and comments stand before a `Dedent`.
pub open spec fn trivia_then_dedent(tokens: Seq<Token>, q: int) -> bool
    decreases tokens.len() - q,
{
    if q < 0 || q >= tokens.len() {
        false
    } else if tokens[q].kind is Newline || tokens[q].kind is DocComment || tokens[q].kind is Comment {
        trivia_then_dedent(tokens, q + 1)
    } else {
        tokens[q].kind is Dedent
    }
}

/// The last line of a function body read from token `k` at block depth
/// `depth`, `end` being the last line seen so far. The body ends where its
/// block closes or the stream ends; a comment at the body's own depth that
/// only newlines and comments separate from the closing `Dedent` belongs to
/// what follows, so the body ends before it.
pub open spec fn body_last_line(tokens: Seq<Token>, k: int, depth: int, end: int) -> int
    decreases tokens.len() - k,
{
    if k < 0 || k >= tokens.len() || tokens[k].kind is Eof || depth <= 0 {
        end
    } else if depth == 1 && (tokens[k].kind is DocComment || tokens[k].kind is Comment) && trivia_then_dedent(
        tokens,
        k,
    ) {
        end
    } else if tokens[k].kind is Indent {
        body_last_line(tokens, k + 1, depth + 1, end)
    } else if tokens[k].kind is Dedent {
        body_last_line(tokens, k + 1, depth - 1, end)
    } else {
        body_last_line(
            tokens,
            k + 1,
            depth,
            if tokens[k].span.line > end {
                tokens[k].span.line as int
            } else {
                end
            },
        )
    }
}

/// The number of lines of the body that starts at token `p`: none unless an
/// `Indent` stands there; else the lines from the body's first token to its
/// last line.
pub open spec fn body_lines(tokens: Seq<Token>, p: int) -> int {
    if 0 <= p && p + 1 < tokens.len() && tokens[p].kind is Indent && !(tokens[p + 1].kind is Eof) {
        body_last_line(tokens, p + 1, 1, tokens[p + 1].span.line as int) - tokens[p + 1].span.line + 1
    } else {
        0
    }
}

/// The first newline or end of the stream at or after `a`.
pub open spec fn line_stop(tokens: Seq<Token>, a: int) -> int
    decreases tokens.len() - a,
{
    if 0 <= a < tokens.len() && !(tokens[a].kind is Newline) && !(tokens[a].kind is Eof) {
        line_stop(tokens, a + 1)
    } else {
        a
    }
}

/// Parentheses opened minus parentheses closed in `tokens[a..b]`.
pub open spec fn paren_balance(tokens: Seq<Token>, a: int, b: int) -> int
    decreases b - a,
{
    if b <= a {
        0
    } else {
        paren_balance(tokens, a, b - 1) + if tokens[b - 1].kind is LeftParen {
            1int
        } else if tokens[b - 1].kind is RightParen {
            -1int
        } else {
            0int
        }
    }
}

/// Blocks opened minus blocks closed (`Indent` minus `Dedent`) in `tokens[a..b]`.
pub open spec fn block_balance(tokens: Seq<Token>, a: int, b: int) -> int
    decreases b - a,
{
    if b <= a {
        0
    } else {
        block_balance(tokens, a, b - 1) + if tokens[b - 1].kind is Indent {
            1int
        } else if tokens[b - 1].kind is Dedent {
            -1int
        } else {
            0int
        }
    }
}

/// An opening bracket of any kind: `(`, `[` or `{`.
pub open spec fn is_opener(k: TokenKind) -> bool {
    k is LeftParen || k is LeftBracket || k is LeftBrace
}

/// A closing bracket of any kind: `)`, `]` or `}`.
pub open spec fn is_closer(k: TokenKind) -> bool {
    k is RightParen || k is RightBracket || k is RightBrace
}

/// Brackets of all kinds opened minus those closed in `tokens[a..b]`.
pub open spec fn bracket_balance(tokens: Seq<Token>, a: int, b: int) -> int
    decreases b - a,
{
    if b <= a {
        0
    } else {
        bracket_balance(tokens, a, b - 1) + if is_opener(tokens[b - 1].kind) {
            1int
        } else if is_closer(tokens[b - 1].kind) {
            -1int
        } else {
            0int
        }
    }
}

/// Where an expression that starts at `a` ends: at position `k`, outside all
/// the brackets opened since `a`, stands a closing bracket, a comma or a newline.
pub open spec fn ends_expression(tokens: Seq<Token>, a: int, k: int) -> bool {
    bracket_balance(tokens, a, k) == 0 && (is_closer(tokens[k].kind) || tokens[k].kind is Comma
        || tokens[k].kind is Newline)
}

/// Where an expression that starts at `a` ends, scanning from `k`: the first
/// position where it ends (`ends_expression`) or the end of the stream.
pub open spec fn expression_end(tokens: Seq<Token>, a: int, k: int) -> int
    decreases tokens.len() - k,
{
    if k < 0 || k >= tokens.len() || tokens[k].kind is Eof || ends_expression(tokens, a, k) {
        k
    } else {
        expression_end(tokens, a, k + 1)
    }
}

pub proof fn lemma_expression_end_bounds(tokens: Seq<Token>, a: int, k: int)
    requires
        0 <= k <= tokens.len(),
    ensures
        k <= expression_end(tokens, a, k) <= tokens.len(),
    decreases tokens.len() - k,
{
    if k < tokens.len() && !(tokens[k].kind is Eof) && !ends_expression(tokens, a, k) {
        lemma_expression_end_bounds(tokens, a, k + 1);
    }
}

/// The items of an enum body, read from token `j` up to its `}`: an item is a
/// name, optionally followed by `= value`, and by `,`; newlines and comments
/// between items are skipped, as is any other stray token.
pub open spec fn enum_items_from(tokens: Seq<Token>, j: int) -> Seq<(Seq<char>, Span)>
    decreases tokens.len() - j,
{
    if j < 0 || j >= tokens.len() || tokens[j].kind is Eof || tokens[j].kind is RightBrace {
        Seq::empty()
    } else {
        match tokens[j].kind {
            TokenKind::Identifier(n) => {
                let k = if j + 2 <= tokens.len() && tokens[j + 1].kind is Assign {
                    expression_end(tokens, j + 2, j + 2)
                } else {
                    j + 1
                };
                proof {
                    if j + 2 <= tokens.len() && tokens[j + 1].kind is Assign {
                        lemma_expression_end_bounds(tokens, j + 2, j + 2);
                    }
                }
                let k2 = if k < tokens.len() && tokens[k].kind is Comma {
                    k + 1
                } else {
                    k
                };
                seq![(n@, tokens[j].span)] + enum_items_from(tokens, k2)
            },
            _ => enum_items_from(tokens, j + 1),
        }
    }
}

/// Where an enum body read from token `j` ends: just after its `}`, or at
/// the end of the stream.
pub open spec fn enum_stop(tokens: Seq<Token>, j: int) -> int
    decreases tokens.len() - j,
{
    if j < 0 || j >= tokens.len() || tokens[j].kind is Eof {
        j
    } else if tokens[j].kind is RightBrace {
        j + 1
    } else if tokens[j].kind is Identifier {
        let k = if j + 2 <= tokens.len() && tokens[j + 1].kind is Assign {
            expression_end(tokens, j + 2, j + 2)
        } else {
            j + 1
        };
        proof {
            if j + 2 <= tokens.len() && tokens[j + 1].kind is Assign {
                lemma_expression_end_bounds(tokens, j + 2, j + 2);
            }
        }
        let k2 = if k < tokens.len() && tokens[k].kind is Comma {
            k + 1
        } else {
            k
        };
        enum_stop(tokens, k2)
    } else {
        enum_stop(tokens, j + 1)
    }
}

/// Where the enum declared at token `i` ends.
pub open spec fn enum_end(tokens: Seq<Token>, i: int) -> int {
    let q = after_name(tokens, i + 1);
    if tokens[q].kind is LeftBrace {
        enum_stop(tokens, q + 1)
    } else {
        q
    }
}

/// Where a dotted name read from token `j` ends.
pub open spec fn dotted_end(tokens: Seq<Token>, j: int) -> int
    decreases tokens.len() - j,
{
    if 0 <= j < tokens.len() && tokens[j].kind is Identifier {
        if j + 1 < tokens.len() && tokens[j + 1].kind is Dot {
            dotted_end(tokens, j + 2)
        } else {
            j + 1
        }
    } else {
        j
    }
}

/// Where an indented block read from token `k`, at block depth `depth`,
/// ends: just after the `Dedent` that closes it, or at the end of the stream.
pub open spec fn block_end(tokens: Seq<Token>, k: int, depth: int) -> int
    decreases tokens.len() - k,
{
    if k < 0 || k >= tokens.len() || tokens[k].kind is Eof || depth <= 0 {
        k
    } else if tokens[k].kind is Indent {
        block_end(tokens, k + 1, depth + 1)
    } else if tokens[k].kind is Dedent {
        if depth > 1 {
            block_end(tokens, k + 1, depth - 1)
        } else {
            k + 1
        }
    } else {
        block_end(tokens, k + 1, depth)
    }
}

/// Where an indented block that may follow position `a` (past newlines) ends;
/// without one, at the first token after the newlines.
pub open spec fn indented_end(tokens: Seq<Token>, a: int) -> int {
    let p = after_newlines(tokens, a);
    if tokens[p].kind is Indent {
        block_end(tokens, p + 1, 1)
    } else {
        p
    }
}

/// Where the constant declared at token `i` ends: at the end of its line.
pub open spec fn const_end(tokens: Seq<Token>, i: int) -> int {
    line_stop(tokens, hint_end(tokens, after_name(tokens, i + 1)))
}

/// Where the variable declared at token `i` ends: at the end of its line,
/// or, where that line ends in `:`, after the get/set block that follows.
pub open spec fn var_end(tokens: Seq<Token>, i: int) -> int {
    let h = hint_end(tokens, after_name(tokens, i + 1));
    let e = line_stop(tokens, h);
    if e > h && tokens[e - 1].kind is Colon {
        indented_end(tokens, e)
    } else {
        e
    }
}

/// Where a `static` declaration at token `i` that is not a function ends:
/// at the end of its line.
pub open spec fn static_end(tokens: Seq<Token>, i: int) -> int {
    if tokens[i + 1].kind is Var {
        line_stop(tokens, hint_end(tokens, after_name(tokens, i + 2)))
    } else {
        line_stop(tokens, i + 1)
    }
}

pub proof fn lemma_after_newlines_ge(tokens: Seq<Token>, a: int)
    requires
        0 <= a,
    ensures
        a <= after_newlines(tokens, a),
    decreases tokens.len() - a,
{
    if a < tokens.len() && tokens[a].kind is Newline {
        lemma_after_newlines_ge(tokens, a + 1);
    }
}

pub proof fn lemma_bracket_end_ge(tokens: Seq<Token>, k: int, depth: int)
    requires
        0 <= k,
    ensures
        k <= bracket_end(tokens, k, depth),
    decreases tokens.len() - k,
{
    if k < tokens.len() && !(tokens[k].kind is Eof) && depth > 0 {
        if tokens[k].kind is LeftBracket {
            lemma_bracket_end_ge(tokens, k + 1, depth + 1);
        } else if tokens[k].kind is RightBracket {
            if depth > 1 {
                lemma_bracket_end_ge(tokens, k + 1, depth - 1);
            }
        } else {
            lemma_bracket_end_ge(tokens, k + 1, depth);
        }
    }
}

pub proof fn lemma_hint_end_ge(tokens: Seq<Token>, j: int)
    requires
        0 <= j,
    ensures
        j <= hint_end(tokens, j),
        tokens[j].kind is Colon ==> j < hint_end(tokens, j),
{
    if tokens[j].kind is Colon && !(tokens[j + 1].kind is Assign) && tokens[j + 1].kind is Identifier
        && tokens[j + 2].kind is LeftBracket {
        lemma_bracket_end_ge(tokens, j + 3, 1);
    }
}

/// The first comma, `)` or end of the stream at or after token `k`.
pub open spec fn param_skip(tokens: Seq<Token>, k: int) -> int
    decreases tokens.len() - k,
{
    if 0 <= k < tokens.len() && !(tokens[k].kind is Eof) && !(tokens[k].kind is Comma)
        && !(tokens[k].kind is RightParen) {
        param_skip(tokens, k + 1)
    } else {
        k
    }
}

pub proof fn lemma_param_skip_ge(tokens: Seq<Token>, k: int)
    requires
        0 <= k,
    ensures
        k <= param_skip(tokens, k),
        param_skip(tokens, k) == k ==> !(0 <= k < tokens.len() && !(tokens[k].kind is Eof) && !(tokens[k].kind is Comma)
            && !(tokens[k].kind is RightParen)),
    decreases tokens.len() - k,
{
    if 0 <= k < tokens.len() && !(tokens[k].kind is Eof) && !(tokens[k].kind is Comma) && !(tokens[k].kind is RightParen) {
        lemma_param_skip_ge(tokens, k + 1);
    }
}

/// Where a parameter list read from token `k` (just inside its `(`) ends:
/// just after its `)`, or at the end of the stream. A parameter is a name
/// with an optional type hint and `= default`, followed by an optional `,`;
/// anything else is skipped up to the next `,` or `)`.
pub open spec fn plist_end(tokens: Seq<Token>, k: int) -> int
    decreases tokens.len() - k,
{
    if k < 0 || k >= tokens.len() || tokens[k].kind is Eof {
        k
    } else if tokens[k].kind is RightParen {
        k + 1
    } else {
        let k1 = after_newlines(tokens, k);
        proof {
            lemma_after_newlines_ge(tokens, k);
        }
        if k1 >= tokens.len() || tokens[k1].kind is Eof {
            k1
        } else if tokens[k1].kind is RightParen {
            k1 + 1
        } else if tokens[k1].kind is Identifier && tokens[k1].kind->Identifier_0@.len() > 0 {
            let h = hint_end(tokens, k1 + 1);
            proof {
                lemma_hint_end_ge(tokens, k1 + 1);
            }
            let e = if h < tokens.len() && tokens[h].kind is Assign {
                expression_end(tokens, h + 1, h + 1)
            } else {
                h
            };
            proof {
                if h < tokens.len() && tokens[h].kind is Assign {
                    lemma_expression_end_bounds(tokens, h + 1, h + 1);
                }
            }
            let c = if e < tokens.len() && tokens[e].kind is Comma {
                e + 1
            } else {
                e
            };
            if k < c <= tokens.len() {
                plist_end(tokens, c)
            } else {
                c
            }
        } else {
            let s0 = if tokens[k1].kind is Identifier {
                k1 + 1
            } else {
                k1
            };
            let q = param_skip(tokens, s0);
            proof {
                lemma_param_skip_ge(tokens, s0);
            }
            let c = if q < tokens.len() && tokens[q].kind is Comma {
                q + 1
            } else {
                q
            };
            if k < c <= tokens.len() {
                plist_end(tokens, c)
            } else {
                c
            }
        }
    }
}

/// The names and spans of the parameters in a list read from token `k`, in
/// the way `plist_end` reads it.
pub open spec fn plist_items(tokens: Seq<Token>, k: int) -> Seq<(Seq<char>, Span)>
    decreases tokens.len() - k,
{
    if k < 0 || k >= tokens.len() || tokens[k].kind is Eof || tokens[k].kind is RightParen {
        Seq::empty()
    } else {
        let k1 = after_newlines(tokens, k);
        proof {
            lemma_after_newlines_ge(tokens, k);
        }
        if k1 >= tokens.len() || tokens[k1].kind is Eof || tokens[k1].kind is RightParen {
            Seq::empty()
        } else if tokens[k1].kind is Identifier && tokens[k1].kind->Identifier_0@.len() > 0 {
            let h = hint_end(tokens, k1 + 1);
            let e = if h < tokens.len() && tokens[h].kind is Assign {
                expression_end(tokens, h + 1, h + 1)
            } else {
                h
            };
            let c = if e < tokens.len() && tokens[e].kind is Comma {
                e + 1
            } else {
                e
            };
            seq![(tokens[k1].kind->Identifier_0@, tokens[k1].span)] + if k < c <= tokens.len() {
                plist_items(tokens, c)
            } else {
                Seq::empty()
            }
        } else {
            let s0 = if tokens[k1].kind is Identifier {
                k1 + 1
            } else {
                k1
            };
            let q = param_skip(tokens, s0);
            let c = if q < tokens.len() && tokens[q].kind is Comma {
                q + 1
            } else {
                q
            };
            if k < c <= tokens.len() {
                plist_items(tokens, c)
            } else {
                Seq::empty()
            }
        }
    }
}

/// The names and spans of parameters.
pub open spec fn params_view(ps: Seq<Parameter>) -> Seq<(Seq<char>, Span)> {
    ps.map_values(|p: Parameter| (p.name@, p.span))
}

/// The parameters of the signal or function declared at token `i`: those of
/// the list in parentheses after its name (none without one).
pub open spec fn decl_params(tokens: Seq<Token>, i: int) -> Seq<(Seq<char>, Span)> {
    let a = after_name(tokens, i + 1);
    if tokens[a].kind is LeftParen {
        plist_items(tokens, a + 1)
    } else {
        Seq::empty()
    }
}

/// Where the signal declared at token `i` ends.
pub open spec fn signal_end(tokens: Seq<Token>, i: int) -> int {
    let a = after_name(tokens, i + 1);
    if tokens[a].kind is LeftParen {
        plist_end(tokens, a + 1)
    } else {
        a
    }
}

/// Where a function body read from token `k`, at block depth `depth`, stops:
/// just after the `Dedent` that closes it, at the end of the stream, or
/// before a comment at the body's own depth that only newlines and comments
/// separate from the closing `Dedent`.
pub open spec fn body_stop(tokens: Seq<Token>, k: int, depth: int) -> int
    decreases tokens.len() - k,
{
    if k < 0 || k >= tokens.len() || tokens[k].kind is Eof || depth <= 0 {
        k
    } else if depth == 1 && (tokens[k].kind is DocComment || tokens[k].kind is Comment) && trivia_then_dedent(
        tokens,
        k,
    ) {
        k
    } else if tokens[k].kind is Indent {
        body_stop(tokens, k + 1, depth + 1)
    } else if tokens[k].kind is Dedent {
        if depth > 1 {
            body_stop(tokens, k + 1, depth - 1)
        } else {
            k + 1
        }
    } else {
        body_stop(tokens, k + 1, depth)
    }
}

/// Where the body that may start at token `p` ends (`p` itself without an `Indent`).
pub open spec fn body_end(tokens: Seq<Token>, p: int) -> int {
    if 0 <= p && p + 1 < tokens.len() && tokens[p].kind is Indent {
        if tokens[p + 1].kind is Eof {
            p + 1
        } else {
            body_stop(tokens, p + 1, 1)
        }
    } else {
        p
    }
}

/// The first `:`, newline or end of the stream at or after token `k`.
pub open spec fn sig_stop(tokens: Seq<Token>, k: int) -> int
    decreases tokens.len() - k,
{
    if 0 <= k < tokens.len() && !(tokens[k].kind is Eof) && !(tokens[k].kind is Colon) && !(tokens[k].kind is Newline) {
        sig_stop(tokens, k + 1)
    } else {
        k
    }
}

/// Where the parameter list of the function declared at token `i` ends
/// (just after its name where it has none); a return type may follow.
pub open spec fn func_params_end(tokens: Seq<Token>, i: int) -> int {
    let a = after_name(tokens, i + 1);
    if tokens[a].kind is LeftParen {
        plist_end(tokens, a + 1)
    } else {
        a
    }
}

/// Where the body of the function declared at token `i` may start: after
/// its name, parameter list, return type and the rest of its signature up
/// to and including `:`.
pub open spec fn func_body_start(tokens: Seq<Token>, i: int) -> int {
    let b = func_params_end(tokens, i);
    let c = if tokens[b].kind is Arrow {
        type_end(tokens, b + 1)
    } else {
        b
    };
    let d = sig_stop(tokens, c);
    if tokens[d].kind is Colon {
        d + 1
    } else {
        d
    }
}

/// Where the function declared at token `i` ends: after its signature and its body.
pub open spec fn func_end(tokens: Seq<Token>, i: int) -> int {
    body_end(tokens, after_trivia(tokens, func_body_start(tokens, i)))
}

/// Where a parenthesised list read from token `k`, at nesting `depth`,
/// ends: just after the `)` that closes it, or at the end of the stream.
pub open spec fn paren_end(tokens: Seq<Token>, k: int, depth: int) -> int
    decreases tokens.len() - k,
{
    if k < 0 || k >= tokens.len() || tokens[k].kind is Eof || depth <= 0 {
        k
    } else if tokens[k].kind is LeftParen {
        paren_end(tokens, k + 1, depth + 1)
    } else if tokens[k].kind is RightParen {
        if depth > 1 {
            paren_end(tokens, k + 1, depth - 1)
        } else {
            k + 1
        }
    } else {
        paren_end(tokens, k + 1, depth)
    }
}

/// Where an annotation's argument list that may start at token `a` ends
/// (`a` itself without one).
pub open spec fn args_stop(tokens: Seq<Token>, a: int) -> int {
    if tokens[a].kind is LeftParen {
        paren_end(tokens, a + 1, 1)
    } else {
        a
    }
}

/// Where the step of an inner class body that starts at token `k` ends: an
/// annotation after its arguments, a declaration at its own end, anything
/// else after that token.
pub open spec fn block_step_end(tokens: Seq<Token>, k: int) -> int {
    match tokens[k].kind {
        TokenKind::Annotation(_) => args_stop(tokens, k + 1),
        TokenKind::Signal => signal_end(tokens, k),
        TokenKind::Enum => enum_end(tokens, k),
        TokenKind::Const => const_end(tokens, k),
        TokenKind::Var => var_end(tokens, k),
        TokenKind::Static => if tokens[k + 1].kind is Func {
            func_end(tokens, k + 1)
        } else {
            static_end(tokens, k)
        },
        TokenKind::Func => func_end(tokens, k),
        _ => k + 1,
    }
}

/// Where an inner class body read from token `k` (inside its `Indent`)
/// ends: just after its closing `Dedent`, or at the end of the stream.
pub open spec fn block_members_end(tokens: Seq<Token>, k: int) -> int
    decreases tokens.len() - k,
{
    if k < 0 || k >= tokens.len() || tokens[k].kind is Eof {
        k
    } else if tokens[k].kind is Dedent {
        k + 1
    } else {
        let k1 = after_newlines(tokens, k);
        if k1 < 0 || k1 >= tokens.len() || tokens[k1].kind is Eof {
            k1
        } else if tokens[k1].kind is Dedent {
            k1 + 1
        } else {
            let n = block_step_end(tokens, k1);
            if k < n <= tokens.len() {
                block_members_end(tokens, n)
            } else {
                n
            }
        }
    }
}

/// Where an indented class body that may follow position `c` (past newlines) ends.
pub open spec fn class_body_end(tokens: Seq<Token>, c: int) -> int {
    let p = after_newlines(tokens, c);
    if tokens[p].kind is Indent {
        block_members_end(tokens, p + 1)
    } else {
        p
    }
}

/// Where the inner class declared at token `i` ends: after its name, an
/// optional `extends` clause and `:`, and its indented body.
pub open spec fn class_end(tokens: Seq<Token>, i: int) -> int {
    class_body_end(tokens, class_body_start(tokens, i))
}

/// The names and spans of enum members.
pub open spec fn enum_items_view(items: Seq<EnumMember>) -> Seq<(Seq<char>, Span)> {
    items.map_values(|e: EnumMember| (e.name@, e.span))
}

/// The items of the enum declared at token `i`: those of the body in braces
/// after its keyword and optional name (none without braces).
pub open spec fn enum_body_items(tokens: Seq<Token>, i: int) -> Seq<(Seq<char>, Span)> {
    let q = after_name(tokens, i + 1);
    if tokens[q].kind is LeftBrace {
        enum_items_from(tokens, q + 1)
    } else {
        Seq::empty()
    }
}

pub proof fn lemma_enum_items_skip_newlines(tokens: Seq<Token>, j: int)
    requires
        0 <= j,
    ensures
        enum_items_from(tokens, j) == enum_items_from(tokens, after_newlines(tokens, j)),
    decreases tokens.len() - j,
{
    if j < tokens.len() && tokens[j].kind is Newline {
        lemma_enum_items_skip_newlines(tokens, j + 1);
    }
}

pub proof fn lemma_enum_stop_skip_newlines(tokens: Seq<Token>, j: int)
    requires
        0 <= j,
    ensures
        enum_stop(tokens, j) == enum_stop(tokens, after_newlines(tokens, j)),
    decreases tokens.len() - j,
{
    if j < tokens.len() && tokens[j].kind is Newline {
        lemma_enum_stop_skip_newlines(tokens, j + 1);
    }
}

/// The members `ms` were read in token order: each one other than a class
/// annotation (which waits for the declaration after it) was read at the
/// token position `idx[k]`, and those positions increase.
pub open spec fn in_token_order(tokens: Seq<Token>, ms: Seq<ClassMember>, idx: Seq<int>) -> bool {
    &&& idx.len() == ms.len()
    &&& forall|k: int| 0 <= k < ms.len() && !(ms[k] is ClassAnnotation) ==> 0 <= #[trigger] idx[k] < tokens.len()
        && read_at(tokens, idx[k], ms[k])
    &&& forall|j: int, k: int|
        #![trigger idx[j], idx[k]]
        0 <= j < k < ms.len() && !(ms[j] is ClassAnnotation) && !(ms[k] is ClassAnnotation) ==> idx[j] < idx[k]
}

/// The dotted name (`Node`, `res.Base.Inner`) whose first identifier is at
/// token `j`: identifiers joined by the `.` tokens between them.
pub open spec fn dotted_name(tokens: Seq<Token>, j: int) -> Seq<char>
    decreases tokens.len() - j,
{
    if 0 <= j < tokens.len() && tokens[j].kind is Identifier {
        tokens[j].kind->Identifier_0@ + if j + 1 < tokens.len() && tokens[j + 1].kind is Dot {
            seq!['.'] + dotted_name(tokens, j + 2)
        } else {
            Seq::empty()
        }
    } else {
        Seq::empty()
    }
}

/// What a member read at token `i` holds beyond its name: an `extends`
/// declaration's base is the dotted name after the keyword, and an enum's
/// items are those of its body.
pub open spec fn contents_at(tokens: Seq<Token>, i: int, m: ClassMember) -> bool {
    match m {
        ClassMember::ExtendsDecl { base, .. } => base@ == dotted_name(tokens, i + 1),
        ClassMember::Enum { members, .. } => enum_items_view(members@) == enum_body_items(tokens, i),
        ClassMember::Signal { parameters, .. } => params_view(parameters@) == decl_params(tokens, i),
        ClassMember::Function { body_line_count, return_type, parameters, .. } => {
            let b = func_params_end(tokens, i);
            &&& params_view(parameters@) == decl_params(tokens, i)
            &&& body_line_count == body_lines(tokens, after_trivia(tokens, func_body_start(tokens, i)))
            &&& (return_type is Some <==> tokens[b].kind is Arrow)
            &&& (return_type is Some ==> return_type->0@ == type_text(tokens, b + 1))
        },
        _ => true,
    }
}

/// The member `m` is read from the token at `i`: it sits there, that token's
/// kind introduces it, and its name, type hint, and contents are the ones
/// the tokens from `i` on give.
pub open spec fn member_read_at(tokens: Seq<Token>, i: int, m: ClassMember) -> bool {
    &&& 0 <= i < tokens.len()
    &&& member_span(m) == tokens[i].span
    &&& member_token(m, tokens[i].kind)
    &&& named_at(tokens, i, m)
    &&& hinted_at(tokens, i, m)
    &&& contents_at(tokens, i, m)
}

/// Where the top-level parse stands: its position, the annotations waiting
/// for a declaration, and the members read so far.
pub struct ParseState {
    pub pos: int,
    pub pending: Seq<AnnotationInfo>,
    pub members: Seq<ClassMember>,
}

/// `ms` are the class annotations made of the waiting annotations `pend`, in order.
pub open spec fn flushed(pend: Seq<AnnotationInfo>, ms: Seq<ClassMember>) -> bool {
    &&& ms.len() == pend.len()
    &&& forall|i: int|
        0 <= i < ms.len() ==> ((#[trigger] ms[i]) matches ClassMember::ClassAnnotation { name, span } && name@
            == pend[i].name@ && span == pend[i].span)
}

/// The argument list in parentheses that may follow an annotation's name
/// (which ends before `a`) runs to `q`; without one, `q` is `a`.
pub open spec fn args_end(tokens: Seq<Token>, a: int, q: int) -> bool {
    if tokens[a].kind is LeftParen {
        &&& q > a
        &&& forall|k: int| a < k < q ==> paren_balance(tokens, a, k) > 0
        &&& tokens[q].kind is Eof || paren_balance(tokens, a, q) == 0
    } else {
        q == a
    }
}

pub open spec fn is_warning_ignore(n: Seq<char>) -> bool {
    n == "warning_ignore"@ || n == "warning_ignore_start"@ || n == "warning_ignore_restore"@
}

/// Where the declaration that starts at token `f` ends.
pub open spec fn decl_end(tokens: Seq<Token>, f: int) -> int {
    match tokens[f].kind {
        TokenKind::ClassName => after_name(tokens, f + 1),
        TokenKind::Extends => dotted_end(tokens, f + 1),
        TokenKind::Signal => signal_end(tokens, f),
        TokenKind::Enum => enum_end(tokens, f),
        TokenKind::Const => const_end(tokens, f),
        TokenKind::Class => class_end(tokens, f),
        TokenKind::Var => var_end(tokens, f),
        TokenKind::Static => if tokens[f + 1].kind is Func {
            func_end(tokens, f + 1)
        } else {
            static_end(tokens, f)
        },
        _ => func_end(tokens, f),
    }
}

/// One step of the top-level parse from `s` to `s2`, reading at the first
/// token `f` that is not a newline (which must not end the stream):
/// `@tool` and `@static_unload` become members, as does `@icon` with its
/// arguments; `@warning_ignore...` is skipped; any other annotation waits
/// for the next declaration. `class_name`, `extends`, `signal`, `enum`,
/// `const` and `class` first turn the waiting annotations into class
/// annotations; `static`, `var` and `func` take them as their own. A comment
/// or doc comment becomes a member, and any other token is skipped. Each
/// declaration's member is the one read at `f` (`member_read_at`), an inner
/// class holds what its indented body reads (`class_members_at`), and the
/// step ends where the declaration does (`decl_end`).
pub open spec fn pstep_ok(tokens: Seq<Token>, s: ParseState, s2: ParseState) -> bool {
    let f = after_newlines(tokens, s.pos);
    let n0 = s.members.len() as int;
    let new = s2.members.subrange(n0, s2.members.len() as int);
    &&& 0 <= f < tokens.len()
    &&& !(tokens[f].kind is Eof)
    &&& n0 <= s2.members.len()
    &&& s2.members.subrange(0, n0) == s.members
    &&& match tokens[f].kind {
        TokenKind::Annotation(n) => {
            if n@ == "tool"@ || n@ == "static_unload"@ {
                new.len() == 1 && member_read_at(tokens, f, new[0]) && s2.pending == s.pending && s2.pos == f + 1
            } else if n@ == "icon"@ {
                new.len() == 1 && member_read_at(tokens, f, new[0]) && s2.pending == s.pending && args_end(
                    tokens,
                    f + 1,
                    s2.pos,
                )
            } else if is_warning_ignore(n@) {
                new.len() == 0 && s2.pending == s.pending && args_end(tokens, f + 1, s2.pos)
            } else {
                &&& new.len() == 0
                &&& s2.pending.len() == s.pending.len() + 1
                &&& s2.pending.subrange(0, s.pending.len() as int) == s.pending
                &&& s2.pending.last().span == tokens[f].span
                &&& s2.pending.last().name@ == n@
                &&& args_end(tokens, f + 1, s2.pos)
            }
        },
        TokenKind::ClassName | TokenKind::Extends | TokenKind::Signal | TokenKind::Enum | TokenKind::Const
        | TokenKind::Class => {
            &&& new.len() == s.pending.len() + 1
            &&& flushed(s.pending, new.drop_last())
            &&& member_read_at(tokens, f, new.last())
            &&& tokens[f].kind is Class ==> class_members_at(tokens, f, new.last())
            &&& s2.pending.len() == 0
            &&& s2.pos == decl_end(tokens, f)
        },
        TokenKind::DocComment(_) | TokenKind::Comment(_) => {
            new.len() == 1 && member_read_at(tokens, f, new[0]) && s2.pending == s.pending && s2.pos == f + 1
        },
        TokenKind::Static | TokenKind::Var | TokenKind::Func => {
            &&& new.len() == 1
            &&& member_read_at(tokens, f, new[0]) || (tokens[f].kind is Static && new[0] is Function
                && member_read_at(tokens, f + 1, new[0]))
            &&& member_annotations(new[0]) == s.pending
            &&& (new[0] matches ClassMember::Function { is_static, .. } ==> is_static == (tokens[f].kind is Static))
            &&& s2.pending.len() == 0
            &&& s2.pos == decl_end(tokens, f)
        },
        _ => new.len() == 0 && s2.pending == s.pending && s2.pos == f + 1,
    }
}

/// One step of reading an inner class body from `s` to `s2`, at the first
/// token `f` that is not a newline (which must neither end the stream nor
/// close the block): an annotation waits for the next declaration; `signal`,
/// `enum`, `const` and doc comments become members and leave the waiting
/// annotations waiting; `var`, `static` and `func` take them as their own;
/// any other token is skipped. Each step ends where `block_step_end` says.
pub open spec fn bstep_ok(tokens: Seq<Token>, s: ParseState, s2: ParseState) -> bool {
    let f = after_newlines(tokens, s.pos);
    let n0 = s.members.len() as int;
    let new = s2.members.subrange(n0, s2.members.len() as int);
    &&& 0 <= f < tokens.len()
    &&& !(tokens[f].kind is Eof)
    &&& !(tokens[f].kind is Dedent)
    &&& n0 <= s2.members.len()
    &&& s2.members.subrange(0, n0) == s.members
    &&& match tokens[f].kind {
        TokenKind::Annotation(n) => {
            &&& new.len() == 0
            &&& s2.pending.len() == s.pending.len() + 1
            &&& s2.pending.subrange(0, s.pending.len() as int) == s.pending
            &&& s2.pending.last().span == tokens[f].span
            &&& s2.pending.last().name@ == n@
            &&& s2.pos == block_step_end(tokens, f)
        },
        TokenKind::Signal | TokenKind::Enum | TokenKind::Const | TokenKind::DocComment(_) => {
            &&& new.len() == 1
            &&& member_read_at(tokens, f, new[0])
            &&& s2.pending == s.pending
            &&& s2.pos == block_step_end(tokens, f)
        },
        TokenKind::Static | TokenKind::Var | TokenKind::Func => {
            &&& new.len() == 1
            &&& member_read_at(tokens, f, new[0]) || (tokens[f].kind is Static && new[0] is Function
                && member_read_at(tokens, f + 1, new[0]))
            &&& member_annotations(new[0]) == s.pending
            &&& (new[0] matches ClassMember::Function { is_static, .. } ==> is_static == (tokens[f].kind is Static))
            &&& s2.pending.len() == 0
            &&& s2.pos == block_step_end(tokens, f)
        },
        _ => new.len() == 0 && s2.pending == s.pending && s2.pos == f + 1,
    }
}

/// `result` is what an inner class body read from position `p0` (just inside
/// its `Indent`) holds: a chain of steps (`bstep_ok`) from an empty start to
/// a state whose next token, past newlines, closes the block or ends the
/// stream. Annotations still waiting there are dropped.
pub open spec fn block_parses(tokens: Seq<Token>, p0: int, result: Seq<ClassMember>) -> bool {
    exists|states: Seq<ParseState>|
        #![trigger states.len()]
        {
            &&& states.len() >= 1
            &&& states[0] == ParseState { pos: p0, pending: Seq::empty(), members: Seq::empty() }
            &&& forall|k: int| 0 <= k < states.len() - 1 ==> bstep_ok(tokens, #[trigger] states[k], states[k + 1])
            &&& (tokens[after_newlines(tokens, states.last().pos)].kind is Eof || tokens[after_newlines(
                tokens,
                states.last().pos,
            )].kind is Dedent)
            &&& result == states.last().members
        }
}

/// Where the body of the inner class declared at token `i` may start: after
/// its name, an optional `extends` clause and `:`.
pub open spec fn class_body_start(tokens: Seq<Token>, i: int) -> int {
    let a = after_name(tokens, i + 1);
    let b = if tokens[a].kind is Extends {
        after_name(tokens, a + 1)
    } else {
        a
    };
    if tokens[b].kind is Colon {
        b + 1
    } else {
        b
    }
}

/// The members of the inner class `m` declared at token `i` are those its
/// indented body holds (none without one).
pub open spec fn class_members_at(tokens: Seq<Token>, i: int, m: ClassMember) -> bool {
    let p = after_newlines(tokens, class_body_start(tokens, i));
    m matches ClassMember::InnerClass { members, .. } && (if tokens[p].kind is Indent {
        block_parses(tokens, p + 1, members@)
    } else {
        members@.len() == 0
    })
}

/// `result` is what the top-level parse reads from position `p0`: a chain of
/// steps (`pstep_ok`) from an empty start to a state whose next token, past
/// newlines, ends the stream, whose members are followed by the waiting
/// annotations turned into class annotations.
pub open spec fn parses(tokens: Seq<Token>, p0: int, result: Seq<ClassMember>) -> bool {
    exists|states: Seq<ParseState>|
        #![trigger states.len()]
        {
            &&& states.len() >= 1
            &&& states[0] == ParseState { pos: p0, pending: Seq::empty(), members: Seq::empty() }
            &&& forall|k: int| 0 <= k < states.len() - 1 ==> pstep_ok(tokens, #[trigger] states[k], states[k + 1])
            &&& tokens[after_newlines(tokens, states.last().pos)].kind is Eof
            &&& result.len() == states.last().members.len() + states.last().pending.len()
            &&& result.subrange(0, states.last().members.len() as int) == states.last().members
            &&& flushed(
                states.last().pending,
                result.subrange(states.last().members.len() as int, result.len() as int),
            )
        }
}

pub proof fn lemma_after_newlines_idem(tokens: Seq<Token>, a: int)
    requires
        0 <= a,
    ensures
        after_newlines(tokens, after_newlines(tokens, a)) == after_newlines(tokens, a),
    decreases tokens.len() - a,
{
    if a < tokens.len() && tokens[a].kind is Newline {
        lemma_after_newlines_idem(tokens, a + 1);
    }
}

/// A token kind that introduces a member at the top level of a script.
pub open spec fn opens_member(k: TokenKind) -> bool {
    k is ClassName || k is Extends || k is DocComment || k is Comment || k is Signal || k is Enum || k is Const
        || k is Static || k is Var || k is Func || k is Class
}

/// A token kind that introduces a member of an inner class body.
pub open spec fn opens_block_member(k: TokenKind) -> bool {
    k is Signal || k is Enum || k is Const || k is Static || k is Var || k is Func || k is DocComment
}

/// `m` is the member read from the declaration at token `f` (for `static func`,
/// the function at the token after `static`).
pub open spec fn read_at(tokens: Seq<Token>, f: int, m: ClassMember) -> bool {
    member_span(m) == tokens[f].span || (tokens[f].kind is Static && m is Function && member_span(m) == tokens[f
        + 1].span)
}

/// `s` is the span of one of the tokens.
pub open spec fn span_in(tokens: Seq<Token>, s: Span) -> bool {
    exists|i: int| 0 <= i < tokens.len() && #[trigger] tokens[i].span == s
}

/// `s` is the span of an identifier token whose name is `name`.
pub open spec fn identifier_at(tokens: Seq<Token>, name: Seq<char>, s: Span) -> bool {
    exists|i: int|
        0 <= i < tokens.len() && #[trigger] tokens[i].span == s && (tokens[i].kind matches TokenKind::Identifier(
            n,
        ) && n@ == name)
}

/// The parameters of a signal or function declaration.
pub open spec fn member_parameters(m: ClassMember) -> Seq<Parameter> {
    match m {
        ClassMember::Signal { parameters, .. } => parameters@,
        ClassMember::Function { parameters, .. } => parameters@,
        _ => Seq::empty(),
    }
}

/// The members of an enum declaration.
pub open spec fn member_enum_items(m: ClassMember) -> Seq<EnumMember> {
    match m {
        ClassMember::Enum { members, .. } => members@,
        _ => Seq::empty(),
    }
}

/// The kind of token a member of `m`'s kind is read at: the keyword that
/// introduces the declaration, the annotation, or the comment.
pub open spec fn member_token(m: ClassMember, k: TokenKind) -> bool {
    match m {
        ClassMember::ToolAnnotation { .. } => k is Annotation,
        ClassMember::IconAnnotation { .. } => k is Annotation,
        ClassMember::StaticUnloadAnnotation { .. } => k is Annotation,
        ClassMember::ClassAnnotation { .. } => k is Annotation,
        ClassMember::ClassNameDecl { .. } => k is ClassName,
        ClassMember::ExtendsDecl { .. } => k is Extends,
        ClassMember::DocComment { .. } => k is DocComment,
        ClassMember::Signal { .. } => k is Signal,
        ClassMember::Enum { .. } => k is Enum,
        ClassMember::Constant { .. } => k is Const,
        ClassMember::StaticVariable { .. } => k is Static,
        ClassMember::Variable { .. } => k is Var,
        ClassMember::Function { .. } => k is Func,
        ClassMember::InnerClass { .. } => k is Class,
        ClassMember::Comment { .. } => k is Comment,
        ClassMember::BlankLine { .. } => k is Newline,
    }
}

/// The identifier token at `j` gives the name `name` and its span
/// `name_span`; any other token there leaves the name empty.
pub open spec fn ident_at(tokens: Seq<Token>, j: int, name: Seq<char>, name_span: Span) -> bool {
    match tokens[j].kind {
        TokenKind::Identifier(n) => name == n@ && name_span == tokens[j].span,
        _ => name.len() == 0 && name_span == no_span(),
    }
}

/// A declaration at token `i` takes its name from the token right after its
/// keyword (after `static var` for a static variable); an annotation or a
/// comment takes its name or text from the token `i` itself.
pub open spec fn named_at(tokens: Seq<Token>, i: int, m: ClassMember) -> bool {
    match m {
        ClassMember::ToolAnnotation { .. } => tokens[i].kind matches TokenKind::Annotation(n) && n@ == "tool"@,
        ClassMember::IconAnnotation { .. } => tokens[i].kind matches TokenKind::Annotation(n) && n@ == "icon"@,
        ClassMember::StaticUnloadAnnotation { .. } => tokens[i].kind matches TokenKind::Annotation(n) && n@
            == "static_unload"@,
        ClassMember::DocComment { text, .. } => tokens[i].kind matches TokenKind::DocComment(t) && t@ == text@,
        ClassMember::Comment { text, is_doc, .. } => tokens[i].kind matches TokenKind::Comment(t) && t@ == text@
            && !is_doc,
        ClassMember::ClassNameDecl { name, name_span, .. } => ident_at(tokens, i + 1, name@, name_span),
        ClassMember::Signal { name, name_span, .. } => ident_at(tokens, i + 1, name@, name_span),
        ClassMember::Constant { name, name_span, .. } => ident_at(tokens, i + 1, name@, name_span),
        ClassMember::Variable { name, name_span, .. } => ident_at(tokens, i + 1, name@, name_span),
        ClassMember::Function { name, name_span, .. } => ident_at(tokens, i + 1, name@, name_span),
        ClassMember::InnerClass { name, name_span, .. } => ident_at(tokens, i + 1, name@, name_span),
        ClassMember::StaticVariable { name, name_span, .. } => if tokens[i + 1].kind is Var {
            ident_at(tokens, i + 2, name@, name_span)
        } else {
            name@.len() == 0 && name_span == no_span()
        },
        ClassMember::ClassAnnotation { name, .. } => tokens[i].kind matches TokenKind::Annotation(n) && n@ == name@,
        ClassMember::Enum { name, name_span, .. } => match tokens[i + 1].kind {
            TokenKind::Identifier(n) => name matches Some(s) && s@ == n@ && name_span == Some(tokens[i + 1].span),
            _ => name is None && name_span is None,
        },
        _ => true,
    }
}

/// The position after an optional name at `j`.
pub open spec fn after_name(tokens: Seq<Token>, j: int) -> int {
    if tokens[j].kind is Identifier {
        j + 1
    } else {
        j
    }
}

/// The text of a bracketed type argument list from token `k`, at bracket
/// nesting `depth`, up to the `]` that closes it (or the end of the stream):
/// inner brackets as written, a comma as `, `, any other token by its text.
pub open spec fn bracket_text(tokens: Seq<Token>, k: int, depth: int) -> Seq<char>
    decreases tokens.len() - k,
{
    if k < 0 || k >= tokens.len() || tokens[k].kind is Eof || depth <= 0 {
        Seq::empty()
    } else {
        match tokens[k].kind {
            TokenKind::LeftBracket => seq!['['] + bracket_text(tokens, k + 1, depth + 1),
            TokenKind::RightBracket => if depth > 1 {
                seq![']'] + bracket_text(tokens, k + 1, depth - 1)
            } else {
                Seq::empty()
            },
            TokenKind::Comma => seq![',', ' '] + bracket_text(tokens, k + 1, depth),
            _ => tokens[k].text@ + bracket_text(tokens, k + 1, depth),
        }
    }
}

/// The type name written at token `j`: `void`, or an identifier with its
/// bracketed arguments in canonical spacing (`Dictionary[int, String]`);
/// empty where neither stands.
pub open spec fn type_text(tokens: Seq<Token>, j: int) -> Seq<char> {
    if tokens[j].kind is Void {
        "void"@
    } else if tokens[j].kind is Identifier {
        tokens[j].kind->Identifier_0@ + if tokens[j + 1].kind is LeftBracket {
            seq!['['] + bracket_text(tokens, j + 2, 1) + seq![']']
        } else {
            Seq::empty()
        }
    } else {
        Seq::empty()
    }
}

/// Where a bracketed type argument list read from token `k`, at bracket
/// nesting `depth`, ends: just after the `]` that closes it, or at the end
/// of the stream.
pub open spec fn bracket_end(tokens: Seq<Token>, k: int, depth: int) -> int
    decreases tokens.len() - k,
{
    if k < 0 || k >= tokens.len() || tokens[k].kind is Eof || depth <= 0 {
        k
    } else if tokens[k].kind is LeftBracket {
        bracket_end(tokens, k + 1, depth + 1)
    } else if tokens[k].kind is RightBracket {
        if depth > 1 {
            bracket_end(tokens, k + 1, depth - 1)
        } else {
            k + 1
        }
    } else {
        bracket_end(tokens, k + 1, depth)
    }
}

/// Where the type name written at token `j` ends (`j` itself if none stands there).
pub open spec fn type_end(tokens: Seq<Token>, j: int) -> int {
    if tokens[j].kind is Void {
        j + 1
    } else if tokens[j].kind is Identifier {
        if tokens[j + 1].kind is LeftBracket {
            bracket_end(tokens, j + 2, 1)
        } else {
            j + 1
        }
    } else {
        j
    }
}

/// Where a type hint that may start at `j` ends: after `:` and the type
/// name, just after a `:` that `=` follows, and at `j` without a `:`.
pub open spec fn hint_end(tokens: Seq<Token>, j: int) -> int {
    if tokens[j].kind is Colon {
        if tokens[j + 1].kind is Assign {
            j + 1
        } else {
            type_end(tokens, j + 1)
        }
    } else {
        j
    }
}

/// A type hint is read exactly when a `:` stands at `j`; `:=` gives the hint
/// `:=`, and otherwise the hint is the type name after the `:`.
pub open spec fn hint_at(tokens: Seq<Token>, j: int, hint: Option<String>) -> bool {
    &&& (hint is Some <==> tokens[j].kind is Colon)
    &&& (hint is Some && tokens[j + 1].kind is Assign ==> hint->0@ == ":="@)
    &&& (hint is Some && !(tokens[j + 1].kind is Assign) ==> hint->0@ == type_text(tokens, j + 1))
}

/// A parameter is read at an identifier token of its name and span, and has
/// a type hint exactly when a `:` follows that name.
pub open spec fn param_at(tokens: Seq<Token>, p: Parameter) -> bool {
    exists|i: int|
        0 <= i < tokens.len() - 1 && #[trigger] tokens[i].span == p.span && (tokens[i].kind matches TokenKind::Identifier(
            n,
        ) && n@ == p.name@) && hint_at(tokens, i + 1, p.type_hint)
}

/// A variable or constant declaration at token `i` has a type hint exactly
/// when a `:` follows its name.
pub open spec fn hinted_at(tokens: Seq<Token>, i: int, m: ClassMember) -> bool {
    match m {
        ClassMember::Constant { type_hint, .. } => hint_at(tokens, after_name(tokens, i + 1), type_hint),
        ClassMember::Variable { type_hint, .. } => hint_at(tokens, after_name(tokens, i + 1), type_hint),
        ClassMember::StaticVariable { type_hint, .. } => if tokens[i + 1].kind is Var {
            hint_at(tokens, after_name(tokens, i + 2), type_hint)
        } else {
            type_hint is None
        },
        _ => true,
    }
}

/// A member sits at a token of the kind that introduces it and is named by
/// the identifier that follows its keyword, and a function body fits within
/// the source.
pub open spec fn member_ok(tokens: Seq<Token>, m: ClassMember) -> bool {
    &&& exists|i: int|
        0 <= i < tokens.len() && #[trigger] tokens[i].span == member_span(m) && member_token(m, tokens[i].kind)
            && named_at(tokens, i, m) && hinted_at(tokens, i, m) && contents_at(tokens, i, m)
    &&& annotations_ok(tokens, member_annotations(m))
    &&& forall|k: int|
        0 <= k < member_parameters(m).len() ==> identifier_at(
            tokens,
            (#[trigger] member_parameters(m)[k]).name@,
            member_parameters(m)[k].span,
        )
    &&& forall|k: int| 0 <= k < member_parameters(m).len() ==> param_at(tokens, #[trigger] member_parameters(m)[k])
    &&& forall|k: int|
        0 <= k < member_enum_items(m).len() ==> identifier_at(
            tokens,
            (#[trigger] member_enum_items(m)[k]).name@,
            member_enum_items(m)[k].span,
        )
    &&& (m matches ClassMember::Function { body_line_count, .. } ==> body_line_count == 0 || exists|k1: int, k2: int|
        0 <= k1 < tokens.len() && 0 <= k2 < tokens.len() && (#[trigger] tokens[k1]).span.line <= (
        #[trigger] tokens[k2]).span.line && body_line_count == tokens[k2].span.line - tokens[k1].span.line + 1)
}

/// The annotations attached to a variable or function declaration.
pub open spec fn member_annotations(m: ClassMember) -> Seq<AnnotationInfo> {
    match m {
        ClassMember::StaticVariable { annotations, .. } => annotations@,
        ClassMember::Variable { annotations, .. } => annotations@,
        ClassMember::Function { annotations, .. } => annotations@,
        _ => Seq::empty(),
    }
}

/// `a` was read from an annotation token: its span and its name are that token's.
pub open spec fn annotation_at(tokens: Seq<Token>, a: AnnotationInfo) -> bool {
    exists|i: int|
        0 <= i < tokens.len() && #[trigger] tokens[i].span == a.span && (tokens[i].kind matches TokenKind::Annotation(
            n,
        ) && n@ == a.name@)
}

/// Every member, inner-class members included, is `member_ok`.
pub open spec fn members_ok(tokens: Seq<Token>, ms: Seq<ClassMember>) -> bool {
    forall|k: int| 0 <= k < flatten(ms).len() ==> member_ok(tokens, #[trigger] flatten(ms)[k])
}

pub proof fn lemma_members_ok_push(tokens: Seq<Token>, ms: Seq<ClassMember>, m: ClassMember)
    requires
        members_ok(tokens, ms),
        member_ok(tokens, m),
        m matches ClassMember::InnerClass { members, .. } ==> members_ok(tokens, members@),
    ensures
        members_ok(tokens, ms.push(m)),
{
    let s = ms.push(m);
    assert(s.subrange(0, s.len() - 1) == ms);
    assert(s[s.len() - 1] == m);
    let inner = match m {
        ClassMember::InnerClass { members, .. } => flatten(members@),
        _ => Seq::empty(),
    };
    assert(flatten(s) == flatten(ms) + seq![m] + inner);
    assert forall|k: int| 0 <= k < flatten(s).len() implies member_ok(tokens, #[trigger] flatten(s)[k]) by {
        if k < flatten(ms).len() {
            assert(flatten(s)[k] == flatten(ms)[k]);
        } else if k == flatten(ms).len() {
            assert(flatten(s)[k] == m);
        } else {
            assert(flatten(s)[k] == inner[k - flatten(ms).len() - 1]);
        }
    }
}

pub proof fn lemma_members_ok_empty(tokens: Seq<Token>)
    ensures
        members_ok(tokens, Seq::<ClassMember>::empty()),
{
    assert(flatten(Seq::<ClassMember>::empty()).len() == 0);
}

proof fn lemma_flush_ok(
    tokens: Seq<Token>,
    base: Seq<ClassMember>,
    pend: Seq<AnnotationInfo>,
    ms: Seq<ClassMember>,
    k: int,
)
    requires
        0 <= k <= pend.len(),
        members_ok(tokens, base),
        annotations_ok(tokens, pend),
        ms.len() == base.len() + pend.len(),
        forall|j: int| 0 <= j < base.len() ==> ms[j] == base[j],
        forall|i: int|
            0 <= i < pend.len() ==> ((#[trigger] ms[base.len() + i]) matches ClassMember::ClassAnnotation { name, span }
                && span == pend[i].span && name@ == pend[i].name@),
    ensures
        members_ok(tokens, ms.subrange(0, base.len() + k)),
    decreases k,
{
    if k == 0 {
        assert(ms.subrange(0, base.len() as int) == base);
    } else {
        lemma_flush_ok(tokens, base, pend, ms, k - 1);
        let m = ms[base.len() + k - 1];
        assert(member_span(m) == pend[k - 1].span);
        assert(annotation_at(tokens, pend[k - 1]));
        lemma_members_ok_push(tokens, ms.subrange(0, base.len() + k - 1), m);
        assert(ms.subrange(0, base.len() + k - 1).push(m) == ms.subrange(0, base.len() + k));
    }
}

/// Annotations waiting for the declaration they belong to, each at an annotation token.
pub open spec fn annotations_ok(tokens: Seq<Token>, anns: Seq<AnnotationInfo>) -> bool {
    forall|i: int| 0 <= i < anns.len() ==> annotation_at(tokens, #[trigger] anns[i])
}

pub open spec fn no_span() -> Span {
    Span { line: 0, column: 0, offset: 0, length: 0 }
}

/// A lightweight parser that extracts class structure from GDScript tokens.
///
/// It understands declarations and class structure well enough for linting,
/// but does not parse expression trees or validate control flow.
pub struct Parser<'t> {
    tokens: &'t [Token],
    position: usize,
}

/// Turn pending annotations into standalone class-level annotation members,
/// in order. Used where the next declaration cannot take an annotation.
fn flush_pending_class_annotations(members: &mut Vec<ClassMember>, pending: &mut Vec<AnnotationInfo>)
    ensures
        final(pending)@.len() == 0,
        final(members)@.len() == old(members)@.len() + old(pending)@.len(),
        forall|i: int| 0 <= i < old(members)@.len() ==> final(members)@[i] == old(members)@[i],
        forall|i: int|
            0 <= i < old(pending)@.len() ==> ((#[trigger] final(members)@[old(members)@.len() + i]) matches ClassMember::ClassAnnotation { name, span }
                && name@ == old(pending)@[i].name@ && span == old(pending)@[i].span),
{
    let mut taken: Vec<AnnotationInfo> = Vec::new();
    std::mem::swap(&mut taken, pending);
    let ghost base = members@;
    let mut i: usize = 0;
    while i < taken.len()
        invariant
            i <= taken@.len(),
            taken@ == old(pending)@,
            pending@.len() == 0,
            members@.len() == base.len() + i,
            base == old(members)@,
            forall|j: int| 0 <= j < base.len() ==> members@[j] == base[j],
            forall|j: int|
                0 <= j < i ==> ((#[trigger] members@[base.len() + j]) matches ClassMember::ClassAnnotation { name, span }
                    && name@ == taken@[j].name@ && span == taken@[j].span),
        decreases taken@.len() - i,
    {
        members.push(ClassMember::ClassAnnotation { name: taken[i].name.clone(), span: taken[i].span });
        i = i + 1;
    }
}

impl<'t> Parser<'t> {
    pub closed spec fn tokens_view(&self) -> Seq<Token> {
        self.tokens@
    }

    pub closed spec fn pos(&self) -> int {
        self.position as int
    }

    pub closed spec fn wf(&self) -> bool {
        &&& tokens_ok(self.tokens@)
        &&& self.position < self.tokens@.len()
        &&& eof_from(self.tokens@, self.position as int)
        &&& self.tokens@.len() <= usize::MAX
    }

    /// The token at the current position ends the stream.
    pub closed spec fn at_end(&self) -> bool {
        self.tokens@[self.position as int].kind is Eof
    }

    pub fn new(tokens: &'t [Token]) -> (p: Parser<'t>)
        ensures
            p.tokens_view() == tokens@,
            p.pos() == 0,
            tokens_ok(tokens@) ==> p.wf(),
    {
        let _n = tokens.len();
        Parser { tokens, position: 0 }
    }

    fn is_at_end(&self) -> (r: bool)
        requires
            self.wf(),
        ensures
            r == self.at_end(),
            !r ==> self.position + 1 < self.tokens@.len(),
    {
        matches!(self.tokens[self.position].kind, TokenKind::Eof)
    }

    fn kind(&self) -> (k: &TokenKind)
        requires
            self.wf(),
        ensures
            *k == self.tokens@[self.position as int].kind,
    {
        &self.tokens[self.position].kind
    }

    fn advance(&mut self)
        requires
            old(self).wf(),
        ensures
            final(self).wf(),
            final(self).tokens == old(self).tokens,
            !old(self).at_end() ==> final(self).position == old(self).position + 1,
            final(self).position >= old(self).position,
    {
        // Reading stops at the first `Eof`.
        if !self.is_at_end() {
            self.position = self.position + 1;
        }
    }

    fn current_span(&self) -> (s: Span)
        requires
            self.wf(),
        ensures
            s == self.tokens@[self.position as int].span,
            span_in(self.tokens@, s),
    {
        self.tokens[self.position].span
    }

    /// The current token is not the end and has kind `LeftParen` etc.: shorthand checks.
    fn at_left_paren(&self) -> (r: bool)
        requires
            self.wf(),
        ensures
            r == (!self.at_end() && self.tokens@[self.position as int].kind is LeftParen),
    {
        !self.is_at_end() && matches!(self.tokens[self.position].kind, TokenKind::LeftParen)
    }

    fn skip_newlines(&mut self)
        requires
            old(self).wf(),
        ensures
            final(self).wf(),
            final(self).tokens == old(self).tokens,
            final(self).position >= old(self).position,
            final(self).at_end() || !(final(self).tokens@[final(self).position as int].kind is Newline),
            final(self).position == after_newlines(old(self).tokens@, old(self).position as int),
    {
        while !self.is_at_end() && matches!(self.tokens[self.position].kind, TokenKind::Newline)
            invariant
                self.wf(),
                self.tokens == old(self).tokens,
                self.position >= old(self).position,
                after_newlines(self.tokens@, self.position as int) == after_newlines(self.tokens@, old(self).position as int),
            decreases self.tokens@.len() - self.position,
        {
            self.advance();
        }
    }

    fn skip_newlines_and_comments(&mut self)
        requires
            old(self).wf(),
        ensures
            final(self).wf(),
            final(self).tokens == old(self).tokens,
            final(self).position >= old(self).position,
            final(self).position == after_trivia(old(self).tokens@, old(self).position as int),
    {
        while !self.is_at_end() && (matches!(self.tokens[self.position].kind, TokenKind::Newline)
            || matches!(self.tokens[self.position].kind, TokenKind::Comment(_))
            || matches!(self.tokens[self.position].kind, TokenKind::DocComment(_)))
            invariant
                self.wf(),
                self.tokens == old(self).tokens,
                self.position >= old(self).position,
                after_trivia(self.tokens@, self.position as int) == after_trivia(self.tokens@, old(self).position as int),
            decreases self.tokens@.len() - self.position,
        {
            self.advance();
        }
    }

    fn skip_to_newline(&mut self)
        requires
            old(self).wf(),
        ensures
            final(self).wf(),
            final(self).tokens == old(self).tokens,
            final(self).position >= old(self).position,
            final(self).position == line_stop(old(self).tokens@, old(self).position as int),
    {
        while !self.is_at_end() && !matches!(self.tokens[self.position].kind, TokenKind::Newline)
            invariant
                self.wf(),
                self.tokens == old(self).tokens,
                self.position >= old(self).position,
                line_stop(self.tokens@, self.position as int) == line_stop(self.tokens@, old(self).position as int),
            decreases self.tokens@.len() - self.position,
        {
            self.advance();
        }
    }

    /// Skip an expression: up to a comma, newline or closing bracket at depth zero.
    fn skip_expression(&mut self)
        requires
            old(self).wf(),
        ensures
            final(self).wf(),
            final(self).tokens == old(self).tokens,
            final(self).position >= old(self).position,
            forall|k: int|
                old(self).position <= k < final(self).position ==> !ends_expression(old(self).tokens@, old(self).position as int, k),
            final(self).at_end() || ends_expression(old(self).tokens@, old(self).position as int, final(self).position as int),
            final(self).position == expression_end(
                old(self).tokens@,
                old(self).position as int,
                old(self).position as int,
            ),
    {
        let mut paren_depth: usize = 0;
        let start = self.position;
        while !self.is_at_end()
            invariant
                self.wf(),
                self.tokens == old(self).tokens,
                self.position >= old(self).position,
                start == old(self).position,
                paren_depth <= self.position - start,
                paren_depth == bracket_balance(self.tokens@, start as int, self.position as int),
                forall|k: int| start <= k < self.position ==> !ends_expression(self.tokens@, start as int, k),
                expression_end(self.tokens@, start as int, self.position as int) == expression_end(
                    self.tokens@,
                    start as int,
                    start as int,
                ),
            decreases self.tokens@.len() - self.position,
        {
            match self.kind() {
                TokenKind::LeftParen | TokenKind::LeftBracket | TokenKind::LeftBrace => {
                    paren_depth = paren_depth + 1;
                    self.advance();
                },
                TokenKind::RightParen | TokenKind::RightBracket | TokenKind::RightBrace => {
                    if paren_depth == 0 {
                        return;
                    }
                    paren_depth = paren_depth - 1;
                    self.advance();
                },
                TokenKind::Comma => {
                    if paren_depth == 0 {
                        return;
                    }
                    self.advance();
                },
                TokenKind::Newline => {
                    if paren_depth == 0 {
                        return;
                    }
                    self.advance();
                },
                _ => {
                    self.advance();
                },
            }
        }
    }

    /// The identifier at the current position, consumed; empty with a zero span otherwise.
    fn expect_identifier(&mut self) -> (r: (String, Span))
        requires
            old(self).wf(),
        ensures
            final(self).wf(),
            final(self).tokens == old(self).tokens,
            final(self).position >= old(self).position,
            match old(self).tokens@[old(self).position as int].kind {
                TokenKind::Identifier(n) => !old(self).at_end() && r.0@ == n@ && r.1
                    == old(self).tokens@[old(self).position as int].span && final(self).position
                    == old(self).position + 1,
                _ => r.0@.len() == 0 && r.1 == no_span() && final(self).position == old(
                    self,
                ).position,
            },
    {
        if self.is_at_end() {
            return (String::new(), Span::new(0, 0, 0, 0));
        }
        let r = match self.kind() {
            TokenKind::Identifier(name) => (name.clone(), self.current_span()),
            _ => {
                return (String::new(), Span::new(0, 0, 0, 0));
            },
        };
        self.advance();
        r
    }
}


impl<'t> Parser<'t> {
    fn parse_annotation(&mut self) -> (a: AnnotationInfo)
        requires
            old(self).wf(),
            !old(self).at_end(),
        ensures
            final(self).wf(),
            final(self).tokens == old(self).tokens,
            final(self).position == old(self).position + 1,
            a.span == old(self).tokens@[old(self).position as int].span,
            span_in(old(self).tokens@, a.span),
            match old(self).tokens@[old(self).position as int].kind {
                TokenKind::Annotation(n) => a.name@ == n@,
                _ => a.name@.len() == 0,
            },
    {
        let span = self.current_span();
        let name = match self.kind() {
            TokenKind::Annotation(n) => n.clone(),
            _ => String::new(),
        };
        self.advance();
        AnnotationInfo { name, span }
    }

    /// Skip a parenthesised argument list after an annotation, if there is one.
    fn skip_annotation_args(&mut self)
        requires
            old(self).wf(),
        ensures
            final(self).wf(),
            final(self).tokens == old(self).tokens,
            final(self).position >= old(self).position,
            !(!old(self).at_end() && old(self).tokens@[old(self).position as int].kind is LeftParen)
                ==> final(self).position == old(self).position,
            (!old(self).at_end() && old(self).tokens@[old(self).position as int].kind is LeftParen) ==> {
                &&& final(self).position > old(self).position
                &&& forall|k: int|
                    old(self).position < k < final(self).position ==> paren_balance(
                        old(self).tokens@,
                        old(self).position as int,
                        k,
                    ) > 0
                &&& final(self).at_end() || paren_balance(
                    old(self).tokens@,
                    old(self).position as int,
                    final(self).position as int,
                ) == 0
            },
            final(self).position == args_stop(old(self).tokens@, old(self).position as int),
    {
        if self.at_left_paren() {
            let start = self.position;
            let mut depth: usize = 1;
            self.advance();
            assert(paren_balance(self.tokens@, start as int, start as int) == 0);
            while !self.is_at_end() && depth > 0
                invariant
                    self.wf(),
                    self.tokens == old(self).tokens,
                    start == old(self).position,
                    self.position > start,
                    depth <= self.position - start,
                    depth == paren_balance(self.tokens@, start as int, self.position as int),
                    forall|k: int| start < k < self.position ==> paren_balance(self.tokens@, start as int, k) > 0,
                    paren_end(self.tokens@, self.position as int, depth as int) == paren_end(self.tokens@, start + 1, 1),
                decreases self.tokens@.len() - self.position,
            {
                match self.kind() {
                    TokenKind::LeftParen => {
                        depth = depth + 1;
                    },
                    TokenKind::RightParen => {
                        depth = depth - 1;
                    },
                    _ => {},
                }
                self.advance();
            }
        }
    }

    fn parse_class_name(&mut self) -> (m: ClassMember)
        requires
            old(self).wf(),
            !old(self).at_end(),
            old(self).tokens@[old(self).position as int].kind is ClassName,
        ensures
            final(self).wf(),
            final(self).tokens == old(self).tokens,
            final(self).position > old(self).position,
            final(self).position == after_name(old(self).tokens@, old(self).position + 1),
            member_ok(final(self).tokens@, m),
            member_read_at(old(self).tokens@, old(self).position as int, m),
            member_span(m) == old(self).tokens@[old(self).position as int].span,
            m matches ClassMember::ClassNameDecl { name, name_span, span } && span
                == old(self).tokens@[old(self).position as int].span && match old(
                self,
            ).tokens@[old(self).position + 1].kind {
                TokenKind::Identifier(n) => name@ == n@ && name_span == old(self).tokens@[old(
                    self,
                ).position + 1].span,
                _ => name@.len() == 0 && name_span == no_span(),
            },
    {
        let span = self.current_span();
        self.advance();
        let (name, name_span) = self.expect_identifier();
        ClassMember::ClassNameDecl { name, name_span, span }
    }

    fn parse_extends(&mut self) -> (m: ClassMember)
        requires
            old(self).wf(),
            !old(self).at_end(),
            old(self).tokens@[old(self).position as int].kind is Extends,
        ensures
            final(self).wf(),
            final(self).tokens == old(self).tokens,
            final(self).position > old(self).position,
            final(self).position == dotted_end(old(self).tokens@, old(self).position + 1),
            member_ok(final(self).tokens@, m),
            member_read_at(old(self).tokens@, old(self).position as int, m),
            member_span(m) == old(self).tokens@[old(self).position as int].span,
            m matches ClassMember::ExtendsDecl { base, .. } && base@ == dotted_name(
                old(self).tokens@,
                old(self).position + 1,
            ),
    {
        let span = self.current_span();
        self.advance();
        let mut base: Vec<char> = Vec::new();
        let mut more = true;
        let ghost target = dotted_name(self.tokens@, self.position as int);
        while more && !self.is_at_end()
            invariant
                self.wf(),
                self.tokens == old(self).tokens,
                self.position > old(self).position,
                target == dotted_name(self.tokens@, old(self).position + 1),
                more ==> base@ + dotted_name(self.tokens@, self.position as int) == target,
                !more ==> base@ == target,
                more ==> dotted_end(self.tokens@, self.position as int) == dotted_end(self.tokens@, old(self).position + 1),
                !more ==> self.position == dotted_end(self.tokens@, old(self).position + 1),
            decreases self.tokens@.len() - self.position, if more { 1int } else { 0int },
        {
            let name = match self.kind() {
                TokenKind::Identifier(name) => Some(chars_of(name.as_str())),
                _ => None,
            };
            match name {
                Some(n) => {
                    let ghost j = self.position as int;
                    let ghost b0 = base@;
                    push_chars(&mut base, n.as_slice());
                    self.advance();
                    if !self.is_at_end() && matches!(self.tokens[self.position].kind, TokenKind::Dot) {
                        base.push('.');
                        self.advance();
                        proof {
                            assert(dotted_name(self.tokens@, j) == n@ + (seq!['.'] + dotted_name(self.tokens@, j + 2)));
                            assert(base@ + dotted_name(self.tokens@, j + 2) =~= b0 + (n@ + (seq!['.'] + dotted_name(
                                self.tokens@,
                                j + 2,
                            ))));
                        }
                    } else {
                        more = false;
                        proof {
                            assert(dotted_name(self.tokens@, j) == n@ + Seq::<char>::empty());
                            assert(base@ =~= b0 + (n@ + Seq::<char>::empty()));
                        }
                    }
                },
                None => {
                    more = false;
                    assert(dotted_name(self.tokens@, self.position as int) == Seq::<char>::empty());
                    assert(base@ =~= base@ + Seq::<char>::empty());
                },
            }
        }
        assert(more ==> dotted_name(self.tokens@, self.position as int) == Seq::<char>::empty());
        assert(base@ + Seq::<char>::empty() =~= base@);
        ClassMember::ExtendsDecl { base: string_from_chars(base.as_slice()), span }
    }

    fn parse_doc_comment(&mut self) -> (m: ClassMember)
        requires
            old(self).wf(),
            !old(self).at_end(),
            old(self).tokens@[old(self).position as int].kind is DocComment,
        ensures
            final(self).wf(),
            final(self).tokens == old(self).tokens,
            final(self).position == old(self).position + 1,
            member_ok(final(self).tokens@, m),
            member_read_at(old(self).tokens@, old(self).position as int, m),
            member_span(m) == old(self).tokens@[old(self).position as int].span,
            m matches ClassMember::DocComment { text, span } && span == old(self).tokens@[old(
                self,
            ).position as int].span && match old(self).tokens@[old(self).position as int].kind {
                TokenKind::DocComment(t) => text@ == t@,
                _ => text@.len() == 0,
            },
    {
        let span = self.current_span();
        let text = match self.kind() {
            TokenKind::DocComment(t) => t.clone(),
            _ => String::new(),
        };
        self.advance();
        ClassMember::DocComment { text, span }
    }

    /// The name of a type at the current position: `void`, or an identifier with
    /// an optional bracketed argument list (`Array[int]`, `Dictionary[int, String]`).
    fn expect_type_name(&mut self) -> (name: String)
        requires
            old(self).wf(),
        ensures
            final(self).wf(),
            final(self).tokens == old(self).tokens,
            final(self).position >= old(self).position,
            name@ == type_text(old(self).tokens@, old(self).position as int),
            final(self).position == type_end(old(self).tokens@, old(self).position as int),
    {
        proof {
            reveal_strlit("void");
        }
        if self.is_at_end() {
            return String::new();
        }
        if matches!(self.tokens[self.position].kind, TokenKind::Void) {
            self.advance();
            return "void".to_owned();
        }
        let first = match self.kind() {
            TokenKind::Identifier(n) => Some(chars_of(n.as_str())),
            _ => None,
        };
        let mut name: Vec<char> = match first {
            Some(n) => n,
            None => {
                return String::new();
            },
        };
        let ghost j = old(self).position as int;
        let ghost toks = self.tokens@;
        self.advance();
        if !self.is_at_end() && matches!(self.tokens[self.position].kind, TokenKind::LeftBracket) {
            let ghost head = name@;
            name.push('\u{5b}');
            let start = self.position;
            self.advance();
            let mut depth: usize = 1;
            while !self.is_at_end() && depth > 0
                invariant
                    self.wf(),
                    self.tokens == old(self).tokens,
                    toks == self.tokens@,
                    self.position > start,
                    start >= old(self).position,
                    depth <= self.position - start,
                    name@ + bracket_text(toks, self.position as int, depth as int) == head + seq!['['] + bracket_text(
                        toks,
                        j + 2,
                        1,
                    ),
                    bracket_end(toks, self.position as int, depth as int) == bracket_end(toks, j + 2, 1),
                    j + 2 == start + 1,
                decreases self.tokens@.len() - self.position,
            {
                let ghost k = self.position as int;
                let ghost n0 = name@;
                match self.kind() {
                    TokenKind::LeftBracket => {
                        name.push('\u{5b}');
                        depth = depth + 1;
                        assert(n0 + bracket_text(toks, k, depth - 1) =~= name@ + bracket_text(toks, k + 1, depth as int));
                    },
                    TokenKind::RightBracket => {
                        depth = depth - 1;
                        if depth > 0 {
                            name.push('\u{5d}');
                            assert(n0 + bracket_text(toks, k, depth + 1) =~= name@ + bracket_text(toks, k + 1, depth as int));
                        } else {
                            assert(n0 + bracket_text(toks, k, 1) =~= name@ + bracket_text(toks, k + 1, 0));
                        }
                    },
                    TokenKind::Comma => {
                        name.push(',');
                        name.push(' ');
                        assert(n0 + bracket_text(toks, k, depth as int) =~= name@ + bracket_text(toks, k + 1, depth as int));
                    },
                    _ => {
                        let t = chars_of(self.tokens[self.position].text.as_str());
                        push_chars(&mut name, t.as_slice());
                        assert(n0 + bracket_text(toks, k, depth as int) =~= name@ + bracket_text(toks, k + 1, depth as int));
                    },
                }
                self.advance();
            }
            assert(bracket_text(toks, self.position as int, depth as int) == Seq::<char>::empty());
            assert(name@ + Seq::<char>::empty() =~= name@);
            name.push('\u{5d}');
            assert(name@ =~= head + (seq!['['] + bracket_text(toks, j + 2, 1) + seq![']']));
        } else {
            assert(name@ =~= name@ + Seq::<char>::empty());
        }
        string_from_chars(name.as_slice())
    }

    /// A type hint after `:`, or `:=` for an inferred type; none without a colon.
    fn try_parse_type_hint(&mut self) -> (hint: Option<String>)
        requires
            old(self).wf(),
        ensures
            final(self).wf(),
            final(self).tokens == old(self).tokens,
            final(self).position >= old(self).position,
            hint is Some <==> (!old(self).at_end() && old(self).tokens@[old(self).position as int].kind is Colon),
            (hint is Some && old(self).tokens@[old(self).position + 1].kind is Assign) ==> hint->0@
                == ":="@,
            (hint is Some && !(old(self).tokens@[old(self).position + 1].kind is Assign)) ==> hint->0@
                == type_text(old(self).tokens@, old(self).position + 1),
            final(self).position == hint_end(old(self).tokens@, old(self).position as int),
    {
        if !self.is_at_end() && matches!(self.tokens[self.position].kind, TokenKind::Colon) {
            self.advance();
            if !self.is_at_end() && matches!(self.tokens[self.position].kind, TokenKind::Assign) {
                return Some(":=".to_owned());
            }
            Some(self.expect_type_name())
        } else {
            None
        }
    }

    /// The parameters between the parentheses at the current position.
    fn parse_parameter_list(&mut self) -> (params: Vec<Parameter>)
        requires
            old(self).wf(),
            !old(self).at_end(),
        ensures
            final(self).wf(),
            final(self).tokens == old(self).tokens,
            final(self).position > old(self).position,
            forall|i: int| 0 <= i < params@.len() ==> (#[trigger] params@[i]).name@.len() > 0
                && identifier_at(old(self).tokens@, params@[i].name@, params@[i].span),
            forall|i: int| 0 <= i < params@.len() ==> param_at(old(self).tokens@, #[trigger] params@[i]),
            final(self).position == plist_end(old(self).tokens@, old(self).position + 1),
            params_view(params@) == plist_items(old(self).tokens@, old(self).position + 1),
    {
        let mut params: Vec<Parameter> = Vec::new();
        let ghost toks = self.tokens@;
        let ghost end = plist_end(toks, old(self).position + 1);
        let ghost items = plist_items(toks, old(self).position + 1);
        self.advance();
        let mut done = false;
        while !done && !self.is_at_end() && !matches!(self.tokens[self.position].kind, TokenKind::RightParen)
            invariant
                self.wf(),
                self.tokens == old(self).tokens,
                self.position > old(self).position,
                forall|i: int| 0 <= i < params@.len() ==> (#[trigger] params@[i]).name@.len() > 0
                    && identifier_at(old(self).tokens@, params@[i].name@, params@[i].span),
                forall|i: int| 0 <= i < params@.len() ==> param_at(old(self).tokens@, #[trigger] params@[i]),
                toks == self.tokens@,
                end == plist_end(toks, old(self).position + 1),
                !done ==> plist_end(toks, self.position as int) == end,
                items == plist_items(toks, old(self).position + 1),
                !done ==> params_view(params@) + plist_items(toks, self.position as int) == items,
                done ==> params_view(params@) == items,
                done ==> (self.at_end() && self.position == end) || (!self.at_end()
                    && toks[self.position as int].kind is RightParen && self.position + 1 == end),
            decreases self.tokens@.len() - self.position, if done { 0int } else { 1int },
        {
            let ghost k = self.position as int;
            proof {
                lemma_after_newlines_ge(toks, k);
            }
            self.skip_newlines();
            let ghost k1 = self.position as int;
            if self.is_at_end() || matches!(self.tokens[self.position].kind, TokenKind::RightParen) {
                done = true;
            } else {
                let before = self.position;
                let (name, param_span) = self.expect_identifier();
                let ghost s0 = self.position as int;
                if name.as_str().is_empty() {
                    proof {
                        lemma_param_skip_ge(toks, s0);
                    }
                    // Recovery: skip to the next comma or the closing parenthesis.
                    while !self.is_at_end() && !matches!(self.tokens[self.position].kind, TokenKind::Comma)
                        && !matches!(self.tokens[self.position].kind, TokenKind::RightParen)
                        invariant
                            self.wf(),
                            self.tokens == old(self).tokens,
                            self.position >= before,
                            before > old(self).position,
                            toks == self.tokens@,
                            self.position >= s0,
                            param_skip(toks, self.position as int) == param_skip(toks, s0),
                        decreases self.tokens@.len() - self.position,
                    {
                        self.advance();
                    }
                    if !self.is_at_end() && matches!(self.tokens[self.position].kind, TokenKind::Comma) {
                        self.advance();
                    }
                } else {
                    proof {
                        lemma_hint_end_ge(toks, k1 + 1);
                    }
                    let type_hint = self.try_parse_type_hint();
                    if !self.is_at_end() && matches!(self.tokens[self.position].kind, TokenKind::Assign) {
                        self.advance();
                        self.skip_expression();
                    }
                    let ghost old_params = params@;
                    let prm = Parameter { name, type_hint, span: param_span };
                    assert(param_at(old(self).tokens@, prm)) by {
                        assert(old(self).tokens@[before as int].span == prm.span);
                    }
                    params.push(prm);
                    assert(forall|i: int| 0 <= i < old_params.len() ==> params@[i] == old_params[i]);
                    assert(params_view(params@) =~= params_view(old_params).push((prm.name@, prm.span)));
                    if !self.is_at_end() && matches!(self.tokens[self.position].kind, TokenKind::Comma) {
                        self.advance();
                    }
                }
            }
        }
        if !self.is_at_end() && matches!(self.tokens[self.position].kind, TokenKind::RightParen) {
            self.advance();
        }
        params
    }
}


impl<'t> Parser<'t> {
    fn parse_signal(&mut self) -> (m: ClassMember)
        requires
            old(self).wf(),
            !old(self).at_end(),
            old(self).tokens@[old(self).position as int].kind is Signal,
        ensures
            final(self).wf(),
            final(self).tokens == old(self).tokens,
            final(self).position > old(self).position,
            final(self).position == signal_end(old(self).tokens@, old(self).position as int),
            member_ok(final(self).tokens@, m),
            member_read_at(old(self).tokens@, old(self).position as int, m),
            member_span(m) == old(self).tokens@[old(self).position as int].span,
            m is Signal,
    {
        let span = self.current_span();
        self.advance();
        let (name, name_span) = self.expect_identifier();
        let parameters = if self.at_left_paren() {
            self.parse_parameter_list()
        } else {
            Vec::new()
        };
        assert(params_view(parameters@) =~= decl_params(old(self).tokens@, old(self).position as int));
        ClassMember::Signal { name, name_span, parameters, span }
    }

    fn parse_enum(&mut self) -> (m: ClassMember)
        requires
            old(self).wf(),
            !old(self).at_end(),
            old(self).tokens@[old(self).position as int].kind is Enum,
        ensures
            final(self).wf(),
            final(self).tokens == old(self).tokens,
            final(self).position > old(self).position,
            final(self).position == enum_end(old(self).tokens@, old(self).position as int),
            member_ok(final(self).tokens@, m),
            member_read_at(old(self).tokens@, old(self).position as int, m),
            member_span(m) == old(self).tokens@[old(self).position as int].span,
            m matches ClassMember::Enum { members, .. } && forall|i: int|
                0 <= i < members@.len() ==> identifier_at(old(self).tokens@, (#[trigger] members@[i]).name@, members@[i].span),
            m matches ClassMember::Enum { members, .. } && enum_items_view(members@) == enum_body_items(
                old(self).tokens@,
                old(self).position as int,
            ),
    {
        let span = self.current_span();
        self.advance();
        let (name, name_span) = if !self.is_at_end() {
            match self.kind() {
                TokenKind::Identifier(n) => {
                    let n = n.clone();
                    let s = self.current_span();
                    self.advance();
                    (Some(n), Some(s))
                },
                _ => (None, None),
            }
        } else {
            (None, None)
        };
        let mut enum_members: Vec<EnumMember> = Vec::new();
        assert(self.position == after_name(old(self).tokens@, old(self).position + 1));
        let ghost target = enum_body_items(old(self).tokens@, old(self).position as int);
        if !self.is_at_end() && matches!(self.tokens[self.position].kind, TokenKind::LeftBrace) {
            self.advance();
            let mut done = false;
            while !done && !self.is_at_end() && !matches!(self.tokens[self.position].kind, TokenKind::RightBrace)
                invariant
                    self.wf(),
                    self.tokens == old(self).tokens,
                    self.position > old(self).position,
                    forall|i: int| 0 <= i < enum_members@.len() ==> identifier_at(old(self).tokens@, (#[trigger] enum_members@[i]).name@, enum_members@[i].span),
                    enum_items_view(enum_members@) + enum_items_from(self.tokens@, self.position as int) == target,
                    done ==> (self.at_end() || self.tokens@[self.position as int].kind is RightBrace),
                    enum_stop(self.tokens@, self.position as int) == enum_end(old(self).tokens@, old(self).position as int),
                decreases self.tokens@.len() - self.position, if done { 0int } else { 1int },
            {
                proof {
                    lemma_enum_items_skip_newlines(self.tokens@, self.position as int);
                    lemma_enum_stop_skip_newlines(self.tokens@, self.position as int);
                }
                self.skip_newlines();
                if self.is_at_end() || matches!(self.tokens[self.position].kind, TokenKind::RightBrace) {
                    done = true;
                } else if matches!(self.tokens[self.position].kind, TokenKind::DocComment(_))
                    || matches!(self.tokens[self.position].kind, TokenKind::Comment(_)) {
                    self.advance();
                } else {
                    let ident = match self.kind() {
                        TokenKind::Identifier(n) => Some(n.clone()),
                        _ => None,
                    };
                    match ident {
                        Some(member_name) => {
                            let ghost j = self.position as int;
                            let member_span = self.current_span();
                            self.advance();
                            if !self.is_at_end() && matches!(self.tokens[self.position].kind, TokenKind::Assign) {
                                self.advance();
                                self.skip_expression();
                            }
                            let ghost before = enum_members@;
                            enum_members.push(EnumMember { name: member_name, span: member_span });
                            assert(forall|i: int| 0 <= i < before.len() ==> enum_members@[i] == before[i]);
                            if !self.is_at_end() && matches!(self.tokens[self.position].kind, TokenKind::Comma) {
                                self.advance();
                            }
                            proof {
                                assert(enum_items_view(enum_members@) =~= enum_items_view(before).push(
                                    (member_name@, member_span),
                                ));
                                assert(enum_items_from(self.tokens@, j) == seq![(member_name@, member_span)]
                                    + enum_items_from(self.tokens@, self.position as int));
                                assert(enum_stop(self.tokens@, j) == enum_stop(self.tokens@, self.position as int));
                                assert(enum_items_view(before).push((member_name@, member_span)) + enum_items_from(
                                    self.tokens@,
                                    self.position as int,
                                ) =~= enum_items_view(before) + (seq![(member_name@, member_span)] + enum_items_from(
                                    self.tokens@,
                                    self.position as int,
                                )));
                            }
                        },
                        None => {
                            // An unknown token inside the enum: skip it.
                            self.advance();
                        },
                    }
                }
            }
            assert(enum_items_from(self.tokens@, self.position as int) =~= Seq::<(Seq<char>, Span)>::empty());
            assert(enum_items_view(enum_members@) =~= target);
            if !self.is_at_end() && matches!(self.tokens[self.position].kind, TokenKind::RightBrace) {
                self.advance();
            }
        } else {
            assert(enum_items_view(enum_members@) =~= target);
        }
        ClassMember::Enum { name, name_span, members: enum_members, span }
    }

    fn parse_const(&mut self) -> (m: ClassMember)
        requires
            old(self).wf(),
            !old(self).at_end(),
            old(self).tokens@[old(self).position as int].kind is Const,
        ensures
            final(self).wf(),
            final(self).tokens == old(self).tokens,
            final(self).position > old(self).position,
            final(self).position == const_end(old(self).tokens@, old(self).position as int),
            member_ok(final(self).tokens@, m),
            member_read_at(old(self).tokens@, old(self).position as int, m),
            member_span(m) == old(self).tokens@[old(self).position as int].span,
            m is Constant,
    {
        let span = self.current_span();
        self.advance();
        let (name, name_span) = self.expect_identifier();
        let type_hint = self.try_parse_type_hint();
        self.skip_to_newline();
        ClassMember::Constant { name, name_span, type_hint, span }
    }

    /// Skip the indented block after a line ending in `:`, if one follows.
    fn skip_indented_block(&mut self)
        requires
            old(self).wf(),
        ensures
            final(self).wf(),
            final(self).tokens == old(self).tokens,
            final(self).position >= old(self).position,
            !(old(self).tokens@[after_newlines(old(self).tokens@, old(self).position as int)].kind is Indent)
                ==> final(self).position == after_newlines(old(self).tokens@, old(self).position as int),
            old(self).tokens@[after_newlines(old(self).tokens@, old(self).position as int)].kind is Indent ==> {
                let p = after_newlines(old(self).tokens@, old(self).position as int);
                &&& final(self).position > p
                &&& forall|k: int| p < k < final(self).position ==> block_balance(old(self).tokens@, p, k) > 0
                &&& final(self).at_end() || block_balance(old(self).tokens@, p, final(self).position as int) == 0
            },
            final(self).position == indented_end(old(self).tokens@, old(self).position as int),
    {
        self.skip_newlines();
        if self.is_at_end() || !matches!(self.tokens[self.position].kind, TokenKind::Indent) {
            return;
        }
        let start = self.position;
        self.advance();
        let mut depth: usize = 1;
        assert(block_balance(self.tokens@, start as int, start as int) == 0);
        while !self.is_at_end() && depth > 0
            invariant
                self.wf(),
                self.tokens == old(self).tokens,
                start >= old(self).position,
                self.position > start,
                depth <= self.position - start,
                start == after_newlines(old(self).tokens@, old(self).position as int),
                depth == block_balance(self.tokens@, start as int, self.position as int),
                forall|k: int| start < k < self.position ==> block_balance(self.tokens@, start as int, k) > 0,
                block_end(self.tokens@, self.position as int, depth as int) == block_end(self.tokens@, start + 1, 1),
            decreases self.tokens@.len() - self.position,
        {
            match self.kind() {
                TokenKind::Indent => {
                    depth = depth + 1;
                },
                TokenKind::Dedent => {
                    depth = depth - 1;
                },
                _ => {},
            }
            self.advance();
        }
        assert(block_end(self.tokens@, self.position as int, depth as int) == self.position);
    }

    fn parse_variable(&mut self, annotations: Vec<AnnotationInfo>) -> (m: ClassMember)
        requires
            old(self).wf(),
            !old(self).at_end(),
            old(self).tokens@[old(self).position as int].kind is Var,
            annotations_ok(old(self).tokens@, annotations@),
        ensures
            final(self).wf(),
            final(self).tokens == old(self).tokens,
            final(self).position > old(self).position,
            final(self).position == var_end(old(self).tokens@, old(self).position as int),
            member_ok(final(self).tokens@, m),
            member_read_at(old(self).tokens@, old(self).position as int, m),
            member_span(m) == old(self).tokens@[old(self).position as int].span,
            m matches ClassMember::Variable { annotations: a, span, .. } && a == annotations && span
                == old(self).tokens@[old(self).position as int].span,
    {
        let span = self.current_span();
        self.advance();
        let (name, name_span) = self.expect_identifier();
        let type_hint = self.try_parse_type_hint();
        let ghost h = self.position as int;
        // A line ending in `:` opens a get/set block, which is skipped too.
        let mut ends_with_colon = false;
        while !self.is_at_end() && !matches!(self.tokens[self.position].kind, TokenKind::Newline)
            invariant
                self.wf(),
                self.tokens == old(self).tokens,
                self.position > old(self).position,
                h == hint_end(old(self).tokens@, after_name(old(self).tokens@, old(self).position + 1)),
                self.position >= h,
                line_stop(self.tokens@, self.position as int) == line_stop(self.tokens@, h),
                ends_with_colon == (self.position > h && self.tokens@[self.position - 1].kind is Colon),
            decreases self.tokens@.len() - self.position,
        {
            ends_with_colon = matches!(self.tokens[self.position].kind, TokenKind::Colon);
            self.advance();
        }
        if ends_with_colon {
            self.skip_indented_block();
        }
        ClassMember::Variable { name, name_span, type_hint, annotations, span }
    }

    /// The number of source lines in the indented body that follows, 0 if none.
    fn count_body_lines(&mut self) -> (n: usize)
        requires
            old(self).wf(),
        ensures
            final(self).wf(),
            final(self).tokens == old(self).tokens,
            final(self).position >= old(self).position,
            ({
                let p = after_trivia(old(self).tokens@, old(self).position as int);
                n > 0 <==> (old(self).tokens@[p].kind is Indent && !(old(self).tokens@[p + 1].kind is Eof))
            }),
            ({
                let p = after_trivia(old(self).tokens@, old(self).position as int);
                n > 0 ==> exists|k: int|
                    p < k < old(self).tokens@.len() && #[trigger] old(self).tokens@[k].span.line
                        == old(self).tokens@[p + 1].span.line + n - 1
            }),
            n == body_lines(old(self).tokens@, after_trivia(old(self).tokens@, old(self).position as int)),
            final(self).position == body_end(old(self).tokens@, after_trivia(old(self).tokens@, old(self).position as int)),
    {
        let ghost toks = self.tokens@;
        self.skip_newlines_and_comments();
        if self.is_at_end() || !matches!(self.tokens[self.position].kind, TokenKind::Indent) {
            return 0;
        }
        let indent_pos = self.position;
        let mut depth: usize = 1;
        self.advance();
        if self.is_at_end() {
            return 0;
        }
        let start_line = self.tokens[self.position].span.line;
        let mut end_line = start_line;
        let ghost target = body_last_line(toks, indent_pos + 1, 1, start_line as int);
        while !self.is_at_end() && depth > 0
            invariant
                self.wf(),
                self.tokens == old(self).tokens,
                toks == self.tokens@,
                body_last_line(toks, self.position as int, depth as int, end_line as int) == target,
                target == body_last_line(toks, indent_pos + 1, 1, start_line as int),
                depth > 0 ==> body_stop(toks, self.position as int, depth as int) == body_stop(toks, indent_pos + 1, 1),
                depth == 0 ==> toks[self.position as int].kind is Dedent && self.position + 1 == body_stop(
                    toks,
                    indent_pos + 1,
                    1,
                ),
                indent_pos >= old(self).position,
                self.position > indent_pos,
                depth <= self.position - indent_pos,
                start_line <= end_line < usize::MAX,
                indent_pos == after_trivia(old(self).tokens@, old(self).position as int),
                start_line == self.tokens@[indent_pos + 1].span.line,
                self.tokens@[indent_pos as int].kind is Indent && !(self.tokens@[indent_pos + 1].kind is Eof),
                exists|k: int| indent_pos < k < self.tokens@.len() && #[trigger] self.tokens@[k].span.line == end_line,
            decreases self.tokens@.len() - self.position, depth,
        {
            // A comment at body depth followed only by newlines and comments up to the
            // closing Dedent belongs to what comes after the body, not to the body.
            if depth == 1 && (matches!(self.tokens[self.position].kind, TokenKind::DocComment(_))
                || matches!(self.tokens[self.position].kind, TokenKind::Comment(_))) {
                let mut peek = self.position;
                let mut scanning = true;
                while scanning && peek < self.tokens.len()
                    invariant
                        self.wf(),
                        self.tokens == old(self).tokens,
                        toks == self.tokens@,
                        depth == 1,
                        peek >= self.position,
                        body_last_line(toks, self.position as int, depth as int, end_line as int) == target,
                        target == body_last_line(toks, indent_pos + 1, 1, start_line as int),
                        body_stop(toks, self.position as int, depth as int) == body_stop(toks, indent_pos + 1, 1),
                        scanning ==> trivia_then_dedent(toks, self.position as int) == trivia_then_dedent(toks, peek as int),
                        !scanning ==> !trivia_then_dedent(toks, self.position as int),
                        !self.at_end(),
                        self.tokens@[self.position as int].kind is DocComment || self.tokens@[self.position as int].kind is Comment,
                        indent_pos >= old(self).position,
                        self.position > indent_pos,
                        peek <= self.tokens@.len(),
                        start_line <= end_line < usize::MAX,
                        indent_pos == after_trivia(old(self).tokens@, old(self).position as int),
                        start_line == self.tokens@[indent_pos + 1].span.line,
                        self.tokens@[indent_pos as int].kind is Indent && !(self.tokens@[indent_pos + 1].kind is Eof),
                        exists|k: int| indent_pos < k < self.tokens@.len() && #[trigger] self.tokens@[k].span.line == end_line,
                    decreases self.tokens@.len() - peek, if scanning { 1int } else { 0int },
                {
                    match &self.tokens[peek].kind {
                        TokenKind::Newline | TokenKind::DocComment(_) | TokenKind::Comment(_) => {
                            peek = peek + 1;
                        },
                        TokenKind::Dedent => {
                            proof {
                                assert(trivia_then_dedent(toks, peek as int));
                                assert(end_line as int == target);
                                assert(0 <= indent_pos && indent_pos + 1 < toks.len());
                                assert(toks[indent_pos as int].kind is Indent);
                                assert(!(toks[indent_pos + 1].kind is Eof));
                                assert(toks[indent_pos + 1].span.line == start_line);
                                assert(body_lines(toks, indent_pos as int) == target - start_line + 1);
                            }
                            return end_line - start_line + 1;
                        },
                        _ => {
                            scanning = false;
                        },
                    }
                }
            }
            let ghost k = self.position as int;
            let ghost d0 = depth as int;
            let ghost e0 = end_line as int;
            proof {
                assert(!(d0 == 1 && (toks[k].kind is DocComment || toks[k].kind is Comment) && trivia_then_dedent(toks, k)));
            }
            match self.kind() {
                TokenKind::Indent => {
                    depth = depth + 1;
                    proof {
                        assert(body_last_line(toks, k, d0, e0) == body_last_line(toks, k + 1, d0 + 1, e0));
                        assert(body_stop(toks, k, d0) == body_stop(toks, k + 1, d0 + 1));
                    }
                },
                TokenKind::Dedent => {
                    depth = depth - 1;
                    proof {
                        assert(body_last_line(toks, k, d0, e0) == body_last_line(toks, k + 1, d0 - 1, e0));
                        if d0 > 1 {
                            assert(body_stop(toks, k, d0) == body_stop(toks, k + 1, d0 - 1));
                        } else {
                            assert(body_stop(toks, k, d0) == k + 1);
                        }
                        if depth == 0 {
                            assert(body_last_line(toks, k + 1, 0, e0) == e0);
                            assert(body_last_line(toks, k, 0, e0) == e0);
                        }
                    }
                },
                _ => {
                    let line = self.tokens[self.position].span.line;
                    if line > end_line {
                        end_line = line;
                    }
                    proof {
                        assert(body_last_line(toks, k, d0, e0) == body_last_line(toks, k + 1, d0, end_line as int));
                        assert(body_stop(toks, k, d0) == body_stop(toks, k + 1, d0));
                    }
                },
            }
            if depth > 0 {
                self.advance();
            }
        }
        if !self.is_at_end() && matches!(self.tokens[self.position].kind, TokenKind::Dedent) {
            self.advance();
        }
        end_line - start_line + 1
    }

    fn parse_function(&mut self, is_static: bool, annotations: Vec<AnnotationInfo>) -> (m: ClassMember)
        requires
            old(self).wf(),
            !old(self).at_end(),
            old(self).tokens@[old(self).position as int].kind is Func,
            annotations_ok(old(self).tokens@, annotations@),
        ensures
            final(self).wf(),
            final(self).tokens == old(self).tokens,
            final(self).position > old(self).position,
            final(self).position == func_end(old(self).tokens@, old(self).position as int),
            member_ok(final(self).tokens@, m),
            member_read_at(old(self).tokens@, old(self).position as int, m),
            member_span(m) == old(self).tokens@[old(self).position as int].span,
            m matches ClassMember::Function { annotations: a, is_static: st, span, .. } && a
                == annotations && st == is_static && span == old(self).tokens@[old(
                self,
            ).position as int].span,
    {
        let span = self.current_span();
        self.advance();
        let (name, name_span) = self.expect_identifier();
        let parameters = if self.at_left_paren() {
            self.parse_parameter_list()
        } else {
            Vec::new()
        };
        assert(params_view(parameters@) =~= decl_params(old(self).tokens@, old(self).position as int));
        let return_type = if !self.is_at_end() && matches!(self.tokens[self.position].kind, TokenKind::Arrow) {
            self.advance();
            Some(self.expect_type_name())
        } else {
            None
        };
        let ghost c = self.position as int;
        while !self.is_at_end() && !matches!(self.tokens[self.position].kind, TokenKind::Colon)
            && !matches!(self.tokens[self.position].kind, TokenKind::Newline)
            invariant
                self.wf(),
                self.tokens == old(self).tokens,
                self.position > old(self).position,
                sig_stop(self.tokens@, self.position as int) == sig_stop(self.tokens@, c),
            decreases self.tokens@.len() - self.position,
        {
            self.advance();
        }
        if !self.is_at_end() && matches!(self.tokens[self.position].kind, TokenKind::Colon) {
            self.advance();
        }
        let ghost before_body = self.position as int;
        let body_line_count = self.count_body_lines();
        proof {
            if body_line_count > 0 {
                let p = after_trivia(self.tokens@, before_body);
                lemma_after_trivia_ge(self.tokens@, before_body);
                let k = choose|k: int|
                    p < k < self.tokens@.len() && #[trigger] self.tokens@[k].span.line == self.tokens@[p + 1].span.line
                        + body_line_count - 1;
                assert(0 <= p + 1 < self.tokens@.len());
                assert(self.tokens@[p + 1].span.line <= self.tokens@[k].span.line);
            }
        }
        ClassMember::Function {
            name,
            name_span,
            parameters,
            return_type,
            is_static,
            annotations,
            body_line_count,
            span,
        }
    }

    fn parse_static_member(&mut self, annotations: Vec<AnnotationInfo>) -> (m: ClassMember)
        requires
            old(self).wf(),
            !old(self).at_end(),
            old(self).tokens@[old(self).position as int].kind is Static,
            annotations_ok(old(self).tokens@, annotations@),
        ensures
            final(self).wf(),
            final(self).tokens == old(self).tokens,
            final(self).position > old(self).position,
            !(old(self).tokens@[old(self).position + 1].kind is Func) ==> final(self).position == static_end(
                old(self).tokens@,
                old(self).position as int,
            ),
            old(self).tokens@[old(self).position + 1].kind is Func ==> final(self).position == func_end(
                old(self).tokens@,
                old(self).position + 1,
            ),
            member_ok(final(self).tokens@, m),
            member_read_at(old(self).tokens@, old(self).position as int, m) || (m is Function && member_read_at(
                old(self).tokens@,
                old(self).position + 1,
                m,
            )),
            member_span(m) == old(self).tokens@[old(self).position as int].span || (m is Function
                && member_span(m) == old(self).tokens@[old(self).position + 1].span),
            m is StaticVariable || m is Function,
            member_annotations(m) == annotations@,
            m matches ClassMember::Function { is_static, .. } ==> is_static,
    {
        let span = self.current_span();
        self.advance();
        if matches!(self.tokens[self.position].kind, TokenKind::Var) {
            self.advance();
            let (name, name_span) = self.expect_identifier();
            let type_hint = self.try_parse_type_hint();
            self.skip_to_newline();
            ClassMember::StaticVariable { name, name_span, type_hint, annotations, span }
        } else if matches!(self.tokens[self.position].kind, TokenKind::Func) {
            self.parse_function(true, annotations)
        } else {
            // An unknown static member: skip the line.
            self.skip_to_newline();
            ClassMember::StaticVariable {
                name: String::new(),
                name_span: Span::new(0, 0, 0, 0),
                type_hint: None,
                annotations,
                span,
            }
        }
    }
}


impl<'t> Parser<'t> {
    /// The members of the indented block that follows (an inner-class body).
    fn parse_indented_block(&mut self) -> (members: Vec<ClassMember>)
        requires
            old(self).wf(),
        ensures
            final(self).wf(),
            final(self).tokens == old(self).tokens,
            final(self).position >= old(self).position,
            members_ok(old(self).tokens@, members@),
            final(self).position == class_body_end(old(self).tokens@, old(self).position as int),
            ({
                let p = after_newlines(old(self).tokens@, old(self).position as int);
                old(self).tokens@[p].kind is Indent ==> block_parses(old(self).tokens@, p + 1, members@)
            }),
            ({
                let p = after_newlines(old(self).tokens@, old(self).position as int);
                let f = after_newlines(old(self).tokens@, p + 1);
                &&& !(old(self).tokens@[p].kind is Indent) ==> members@.len() == 0
                &&& old(self).tokens@[p].kind is Indent && (old(self).tokens@[f].kind is Dedent
                    || old(self).tokens@[f].kind is Eof) ==> members@.len() == 0
                &&& old(self).tokens@[p].kind is Indent && opens_block_member(old(self).tokens@[f].kind) ==> members@.len()
                    > 0 && read_at(old(self).tokens@, f, members@[0])
            }),
    {
        let mut members: Vec<ClassMember> = Vec::new();
        proof {
            lemma_members_ok_empty(self.tokens@);
        }
        self.skip_newlines();
        if self.is_at_end() || !matches!(self.tokens[self.position].kind, TokenKind::Indent) {
            return members;
        }
        let ghost f = after_newlines(self.tokens@, self.position + 1);
        let ghost toks = self.tokens@;
        let ghost bend = block_members_end(toks, self.position + 1);
        let ghost mut states: Seq<ParseState> = seq![
            ParseState { pos: self.position + 1, pending: Seq::empty(), members: Seq::empty() },
        ];
        let ghost p0 = self.position + 1;
        self.advance();
        let mut pending: Vec<AnnotationInfo> = Vec::new();
        let mut done = false;
        while !done && !self.is_at_end() && !matches!(self.tokens[self.position].kind, TokenKind::Dedent)
            invariant
                self.wf(),
                self.tokens == old(self).tokens,
                self.position > old(self).position,
                members_ok(old(self).tokens@, members@),
                annotations_ok(old(self).tokens@, pending@),
                f == after_newlines(old(self).tokens@, after_newlines(old(self).tokens@, old(self).position as int) + 1),
                (members@.len() == 0 && after_newlines(self.tokens@, self.position as int) == f) || (members@.len()
                    > 0 && opens_block_member(self.tokens@[f].kind) && read_at(self.tokens@, f, members@[0]))
                    || !(opens_block_member(self.tokens@[f].kind)
                    || self.tokens@[f].kind is Dedent || self.tokens@[f].kind is Eof),
                done ==> (self.tokens@[self.position as int].kind is Dedent || self.at_end()),
                toks == self.tokens@,
                !done ==> block_members_end(toks, self.position as int) == bend,
                done ==> (self.at_end() && self.position == bend) || (!self.at_end() && self.position + 1 == bend),
                p0 == after_newlines(old(self).tokens@, old(self).position as int) + 1,
                states.len() >= 1,
                states[0] == (ParseState { pos: p0, pending: Seq::empty(), members: Seq::empty() }),
                forall|k: int| 0 <= k < states.len() - 1 ==> bstep_ok(toks, #[trigger] states[k], states[k + 1]),
                states.last().pending == pending@,
                states.last().members == members@,
                0 <= states.last().pos,
                after_newlines(toks, states.last().pos) == after_newlines(toks, self.position as int),
                done ==> after_newlines(toks, self.position as int) == self.position,
            decreases self.tokens@.len() - self.position, if done { 0int } else { 1int },
        {
            let ghost st = states.last();
            let ghost k = self.position as int;
            proof {
                lemma_after_newlines_ge(toks, k);
            }
            self.skip_newlines();
            let ghost k1 = self.position as int;
            proof {
                lemma_after_newlines_idem(toks, k1);
                assert(k1 == after_newlines(toks, st.pos));
            }
            if self.is_at_end() || matches!(self.tokens[self.position].kind, TokenKind::Dedent) {
                done = true;
            } else {
                let ghost before = members@;
                match self.kind() {
                    TokenKind::Annotation(_) => {
                        let a = self.parse_annotation();
                        self.skip_annotation_args();
                        let ghost pend = pending@;
                        pending.push(a);
                        assert(pending@[pending@.len() - 1] == a);
                        assert(forall|i: int| 0 <= i < pend.len() ==> pending@[i] == pend[i]);
                        assert(pending@.subrange(0, pend.len() as int) =~= pend);
                    },
                    TokenKind::Signal => {
                        let m = self.parse_signal();
                        proof { lemma_members_ok_push(old(self).tokens@, before, m); }
                        members.push(m);
                    },
                    TokenKind::Enum => {
                        let m = self.parse_enum();
                        proof { lemma_members_ok_push(old(self).tokens@, before, m); }
                        members.push(m);
                    },
                    TokenKind::Const => {
                        let m = self.parse_const();
                        proof { lemma_members_ok_push(old(self).tokens@, before, m); }
                        members.push(m);
                    },
                    TokenKind::Var => {
                        let mut taken: Vec<AnnotationInfo> = Vec::new();
                        std::mem::swap(&mut taken, &mut pending);
                        let m = self.parse_variable(taken);
                        proof { lemma_members_ok_push(old(self).tokens@, before, m); }
                        members.push(m);
                    },
                    TokenKind::Static => {
                        let mut taken: Vec<AnnotationInfo> = Vec::new();
                        std::mem::swap(&mut taken, &mut pending);
                        let m = self.parse_static_member(taken);
                        proof { lemma_members_ok_push(old(self).tokens@, before, m); }
                        members.push(m);
                    },
                    TokenKind::Func => {
                        let mut taken: Vec<AnnotationInfo> = Vec::new();
                        std::mem::swap(&mut taken, &mut pending);
                        let m = self.parse_function(false, taken);
                        proof { lemma_members_ok_push(old(self).tokens@, before, m); }
                        members.push(m);
                    },
                    TokenKind::DocComment(_) => {
                        let m = self.parse_doc_comment();
                        proof { lemma_members_ok_push(old(self).tokens@, before, m); }
                        members.push(m);
                    },
                    _ => {
                        self.advance();
                    },
                }
                proof {
                    let s2 = ParseState { pos: self.position as int, pending: pending@, members: members@ };
                    assert(members@.subrange(0, before.len() as int) =~= before);
                    let new = members@.subrange(before.len() as int, members@.len() as int);
                    if members@.len() > before.len() {
                        assert(new[0] == members@[before.len() as int]);
                    }
                    assert(bstep_ok(toks, st, s2));
                    let states0 = states;
                    states = states.push(s2);
                    assert forall|q: int| 0 <= q < states.len() - 1 implies bstep_ok(
                        toks,
                        #[trigger] states[q],
                        states[q + 1],
                    ) by {
                        if q < states0.len() - 1 {
                            assert(states[q] == states0[q]);
                            assert(states[q + 1] == states0[q + 1]);
                        }
                    }
                    lemma_after_newlines_idem(toks, self.position as int);
                }
            }
        }
        proof {
            assert(states.len() >= 1);
            assert(block_parses(toks, p0, members@));
        }
        if !self.is_at_end() && matches!(self.tokens[self.position].kind, TokenKind::Dedent) {
            self.advance();
        }
        members
    }

    fn parse_inner_class(&mut self) -> (m: ClassMember)
        requires
            old(self).wf(),
            !old(self).at_end(),
            old(self).tokens@[old(self).position as int].kind is Class,
        ensures
            final(self).wf(),
            final(self).tokens == old(self).tokens,
            final(self).position > old(self).position,
            final(self).position == class_end(old(self).tokens@, old(self).position as int),
            class_members_at(old(self).tokens@, old(self).position as int, m),
            member_ok(final(self).tokens@, m),
            member_read_at(old(self).tokens@, old(self).position as int, m),
            member_span(m) == old(self).tokens@[old(self).position as int].span,
            m matches ClassMember::InnerClass { members, span, .. } && members_ok(
                final(self).tokens@,
                members@,
            ) && span == old(self).tokens@[old(self).position as int].span,
    {
        let span = self.current_span();
        self.advance();
        let (name, name_span) = self.expect_identifier();
        if !self.is_at_end() && matches!(self.tokens[self.position].kind, TokenKind::Extends) {
            self.advance();
            let _ = self.expect_identifier();
        }
        if !self.is_at_end() && matches!(self.tokens[self.position].kind, TokenKind::Colon) {
            self.advance();
        }
        let members = self.parse_indented_block();
        ClassMember::InnerClass { name, name_span, members, span }
    }

    /// Parse a GDScript file into its list of class members.
    #[verifier::rlimit(100)]
    #[verifier::spinoff_prover]
    pub fn parse(&mut self) -> (members: Vec<ClassMember>)
        requires
            old(self).wf() || old(self).tokens_view().len() == 0,
        ensures
            members_ok(old(self).tokens_view(), members@),
            old(self).tokens_view().len() == 0 ==> members@.len() == 0,
            exists|idx: Seq<int>| #[trigger] in_token_order(old(self).tokens_view(), members@, idx),
            old(self).tokens_view().len() > 0 ==> parses(old(self).tokens_view(), old(self).pos(), members@),
            old(self).tokens_view().len() > 0 ==> ({
                let f = after_newlines(old(self).tokens_view(), old(self).pos());
                &&& old(self).tokens_view()[f].kind is Eof ==> members@.len() == 0
                &&& opens_member(old(self).tokens_view()[f].kind) ==> members@.len() > 0 && read_at(
                    old(self).tokens_view(),
                    f,
                    members@[0],
                )
            }),
    {
        let mut members: Vec<ClassMember> = Vec::new();
        let mut pending: Vec<AnnotationInfo> = Vec::new();
        proof {
            lemma_members_ok_empty(self.tokens@);
        }
        if self.tokens.len() == 0 {
            assert(in_token_order(self.tokens@, members@, Seq::<int>::empty()));
            return members;
        }
        let ghost f = after_newlines(self.tokens@, self.position as int);
        let ghost mut idx: Seq<int> = Seq::empty();
        let ghost mut states: Seq<ParseState> = seq![
            ParseState { pos: self.position as int, pending: Seq::empty(), members: Seq::empty() },
        ];
        let mut done = false;
        while !done && !self.is_at_end()
            invariant
                self.wf(),
                self.tokens == old(self).tokens,
                members_ok(old(self).tokens@, members@),
                annotations_ok(old(self).tokens@, pending@),
                f == after_newlines(old(self).tokens@, old(self).position as int),
                in_token_order(old(self).tokens@, members@, idx),
                forall|k: int| 0 <= k < idx.len() ==> idx[k] < self.position,
                (members@.len() == 0 && pending@.len() == 0 && after_newlines(self.tokens@, self.position as int)
                    == f) || (members@.len() > 0 && opens_member(self.tokens@[f].kind) && read_at(self.tokens@, f, members@[0]))
                    || !(opens_member(
                    self.tokens@[f].kind,
                ) || self.tokens@[f].kind is Eof),
                done ==> self.at_end(),
                states.len() >= 1,
                states[0] == (ParseState { pos: old(self).position as int, pending: Seq::empty(), members: Seq::empty() }),
                forall|k: int| 0 <= k < states.len() - 1 ==> pstep_ok(old(self).tokens@, #[trigger] states[k], states[k + 1]),
                states.last().pending == pending@,
                states.last().members == members@,
                0 <= states.last().pos,
                after_newlines(old(self).tokens@, states.last().pos) == after_newlines(old(self).tokens@, self.position as int),
            decreases self.tokens@.len() - self.position, if done { 0int } else { 1int },
        {
            let ghost st = states.last();
            self.skip_newlines();
            let ghost p = self.position as int;
            proof {
                lemma_after_newlines_idem(self.tokens@, p);
                assert(p == after_newlines(self.tokens@, st.pos));
            }
            if self.is_at_end() {
                done = true;
            } else {
                let ghost before = members@;
                let ghost pend = pending@;
                proof {
                    reveal_strlit("tool");
                    reveal_strlit("icon");
                    reveal_strlit("static_unload");
                    reveal_strlit("warning_ignore");
                    reveal_strlit("warning_ignore_start");
                    reveal_strlit("warning_ignore_restore");
                    assert("tool"@[0] != "icon"@[0]);
                    assert("tool"@ != "icon"@);
                    assert("static_unload"@.len() != "icon"@.len());
                    assert(!is_warning_ignore("tool"@)) by {
                        assert("tool"@.len() != "warning_ignore"@.len());
                        assert("tool"@.len() != "warning_ignore_start"@.len());
                        assert("tool"@.len() != "warning_ignore_restore"@.len());
                    }
                    assert(!is_warning_ignore("static_unload"@)) by {
                        assert("static_unload"@.len() != "warning_ignore"@.len());
                        assert("static_unload"@.len() != "warning_ignore_start"@.len());
                        assert("static_unload"@.len() != "warning_ignore_restore"@.len());
                    }
                }
                match self.kind() {
                    TokenKind::Annotation(_) => {
                        let annotation = self.parse_annotation();
                        let name = chars_of(annotation.name.as_str());
                        if crate::text::chars_eq(&name, &chars_of("tool")) {
                            let m = ClassMember::ToolAnnotation { span: annotation.span };
                            proof { lemma_members_ok_push(old(self).tokens@, before, m); }
                            members.push(m);
                            proof {
                                idx = idx.push(p);
                                assert(self.position == p + 1);
                                assert(members@.subrange(before.len() as int, members@.len() as int) =~= seq![m]);
                            }
                        } else if crate::text::chars_eq(&name, &chars_of("icon")) {
                            self.skip_annotation_args();
                            let m = ClassMember::IconAnnotation { span: annotation.span };
                            proof { lemma_members_ok_push(old(self).tokens@, before, m); }
                            members.push(m);
                        proof { idx = idx.push(p); }
                        } else if crate::text::chars_eq(&name, &chars_of("static_unload")) {
                            let m = ClassMember::StaticUnloadAnnotation { span: annotation.span };
                            proof { lemma_members_ok_push(old(self).tokens@, before, m); }
                            members.push(m);
                            proof {
                                idx = idx.push(p);
                                assert(self.position == p + 1);
                                assert(name@ == "static_unload"@);
                                assert(members@.subrange(before.len() as int, members@.len() as int) =~= seq![m]);
                            }
                        } else if crate::text::chars_eq(&name, &chars_of("warning_ignore"))
                            || crate::text::chars_eq(&name, &chars_of("warning_ignore_start"))
                            || crate::text::chars_eq(&name, &chars_of("warning_ignore_restore")) {
                            self.skip_annotation_args();
                        } else {
                            self.skip_annotation_args();
                            pending.push(annotation);
                            assert(pending@[pending@.len() - 1] == annotation);
                            assert(forall|i: int| 0 <= i < pend.len() ==> pending@[i] == pend[i]);
                            assert(pending@.subrange(0, pend.len() as int) =~= pend);
                        }
                    },
                    TokenKind::ClassName => {
                        self.flush_pending(&mut members, &mut pending);
                        proof { idx = idx + Seq::new((members@.len() - idx.len()) as nat, |k: int| -1int); }
                        let ghost mid = members@;
                        let m = self.parse_class_name();
                        proof { lemma_members_ok_push(old(self).tokens@, mid, m); }
                        members.push(m);
                        proof {
                            idx = idx.push(p);
                            assert(members@.subrange(before.len() as int, members@.len() as int).drop_last()
                                =~= mid.subrange(before.len() as int, mid.len() as int));
                        }
                    },
                    TokenKind::Extends => {
                        self.flush_pending(&mut members, &mut pending);
                        proof { idx = idx + Seq::new((members@.len() - idx.len()) as nat, |k: int| -1int); }
                        let ghost mid = members@;
                        let m = self.parse_extends();
                        proof { lemma_members_ok_push(old(self).tokens@, mid, m); }
                        members.push(m);
                        proof {
                            idx = idx.push(p);
                            assert(members@.subrange(before.len() as int, members@.len() as int).drop_last()
                                =~= mid.subrange(before.len() as int, mid.len() as int));
                        }
                    },
                    TokenKind::DocComment(_) => {
                        let m = self.parse_doc_comment();
                        proof { lemma_members_ok_push(old(self).tokens@, before, m); }
                        members.push(m);
                        proof { idx = idx.push(p); }
                    },
                    TokenKind::Comment(text) => {
                        let m = ClassMember::Comment {
                            text: text.clone(),
                            is_doc: false,
                            span: self.current_span(),
                        };
                        self.advance();
                        proof { lemma_members_ok_push(old(self).tokens@, before, m); }
                        members.push(m);
                        proof { idx = idx.push(p); }
                    },
                    TokenKind::Signal => {
                        self.flush_pending(&mut members, &mut pending);
                        proof { idx = idx + Seq::new((members@.len() - idx.len()) as nat, |k: int| -1int); }
                        let ghost mid = members@;
                        let m = self.parse_signal();
                        proof { lemma_members_ok_push(old(self).tokens@, mid, m); }
                        members.push(m);
                        proof {
                            idx = idx.push(p);
                            assert(members@.subrange(before.len() as int, members@.len() as int).drop_last()
                                =~= mid.subrange(before.len() as int, mid.len() as int));
                        }
                    },
                    TokenKind::Enum => {
                        self.flush_pending(&mut members, &mut pending);
                        proof { idx = idx + Seq::new((members@.len() - idx.len()) as nat, |k: int| -1int); }
                        let ghost mid = members@;
                        let m = self.parse_enum();
                        proof { lemma_members_ok_push(old(self).tokens@, mid, m); }
                        members.push(m);
                        proof {
                            idx = idx.push(p);
                            assert(members@.subrange(before.len() as int, members@.len() as int).drop_last()
                                =~= mid.subrange(before.len() as int, mid.len() as int));
                        }
                    },
                    TokenKind::Const => {
                        self.flush_pending(&mut members, &mut pending);
                        proof { idx = idx + Seq::new((members@.len() - idx.len()) as nat, |k: int| -1int); }
                        let ghost mid = members@;
                        let m = self.parse_const();
                        proof { lemma_members_ok_push(old(self).tokens@, mid, m); }
                        members.push(m);
                        proof {
                            idx = idx.push(p);
                            assert(members@.subrange(before.len() as int, members@.len() as int).drop_last()
                                =~= mid.subrange(before.len() as int, mid.len() as int));
                        }
                    },
                    TokenKind::Static => {
                        let mut taken: Vec<AnnotationInfo> = Vec::new();
                        std::mem::swap(&mut taken, &mut pending);
                        let m = self.parse_static_member(taken);
                        proof { lemma_members_ok_push(old(self).tokens@, before, m); }
                        members.push(m);
                        proof { idx = idx.push(p); }
                    },
                    TokenKind::Var => {
                        let mut taken: Vec<AnnotationInfo> = Vec::new();
                        std::mem::swap(&mut taken, &mut pending);
                        let m = self.parse_variable(taken);
                        proof { lemma_members_ok_push(old(self).tokens@, before, m); }
                        members.push(m);
                        proof { idx = idx.push(p); }
                    },
                    TokenKind::Func => {
                        let mut taken: Vec<AnnotationInfo> = Vec::new();
                        std::mem::swap(&mut taken, &mut pending);
                        let m = self.parse_function(false, taken);
                        proof { lemma_members_ok_push(old(self).tokens@, before, m); }
                        members.push(m);
                        proof { idx = idx.push(p); }
                    },
                    TokenKind::Class => {
                        self.flush_pending(&mut members, &mut pending);
                        proof { idx = idx + Seq::new((members@.len() - idx.len()) as nat, |k: int| -1int); }
                        let ghost mid = members@;
                        let m = self.parse_inner_class();
                        proof { lemma_members_ok_push(old(self).tokens@, mid, m); }
                        members.push(m);
                        proof {
                            idx = idx.push(p);
                            assert(members@.subrange(before.len() as int, members@.len() as int).drop_last()
                                =~= mid.subrange(before.len() as int, mid.len() as int));
                        }
                    },
                    _ => {
                        // Tokens the parser does not understand at the top level are skipped;
                        // pending annotations stay pending.
                        self.advance();
                    },
                }
                proof {
                    let s2 = ParseState { pos: self.position as int, pending: pending@, members: members@ };
                    assert(members@.subrange(0, before.len() as int) =~= before);
                    let new = members@.subrange(before.len() as int, members@.len() as int);
                    if members@.len() > before.len() {
                        assert(new.last() == members@.last());
                        assert(new[0] == members@[before.len() as int]);
                    }
                    assert(pstep_ok(self.tokens@, st, s2));
                    let states0 = states;
                    states = states.push(s2);
                    assert forall|k: int| 0 <= k < states.len() - 1 implies pstep_ok(
                        old(self).tokens@,
                        #[trigger] states[k],
                        states[k + 1],
                    ) by {
                        if k < states0.len() - 1 {
                            assert(states[k] == states0[k]);
                            assert(states[k + 1] == states0[k + 1]);
                        }
                    }
                    lemma_after_newlines_idem(self.tokens@, self.position as int);
                }
            }
        }
        // Annotations still pending at the end become class-level annotations.
        let ghost last = states.last();
        assert(self.tokens@[self.position as int].kind is Eof);
        self.flush_pending(&mut members, &mut pending);
        proof {
            idx = idx + Seq::new((members@.len() - idx.len()) as nat, |k: int| -1int);
            assert(in_token_order(old(self).tokens@, members@, idx));
            assert(members@.subrange(0, last.members.len() as int) =~= last.members);
            assert(states.len() >= 1);
            assert(parses(old(self).tokens@, old(self).position as int, members@));
        }
        members
    }

    /// `flush_pending_class_annotations`, keeping the members anchored to the tokens.
    fn flush_pending(&self, members: &mut Vec<ClassMember>, pending: &mut Vec<AnnotationInfo>)
        requires
            self.wf(),
            members_ok(self.tokens@, old(members)@),
            annotations_ok(self.tokens@, old(pending)@),
        ensures
            members_ok(self.tokens@, final(members)@),
            final(pending)@.len() == 0,
            final(members)@.len() == old(members)@.len() + old(pending)@.len(),
            forall|i: int| 0 <= i < old(members)@.len() ==> final(members)@[i] == old(members)@[i],
            forall|i: int| old(members)@.len() <= i < final(members)@.len() ==> (#[trigger] final(members)@[i]) is ClassAnnotation,
            flushed(old(pending)@, final(members)@.subrange(old(members)@.len() as int, final(members)@.len() as int)),
    {
        let ghost base = members@;
        let ghost pend = pending@;
        flush_pending_class_annotations(members, pending);
        proof {
            assert forall|i: int| base.len() <= i < members@.len() implies (#[trigger] members@[i]) is ClassAnnotation by {
                assert(members@[base.len() + (i - base.len())] is ClassAnnotation);
            }
            lemma_flush_ok(self.tokens@, base, pend, members@, pend.len() as int);
            assert(members@.subrange(0, members@.len() as int) == members@);
            let new = members@.subrange(base.len() as int, members@.len() as int);
            assert forall|i: int| 0 <= i < new.len() implies ((#[trigger] new[i]) matches ClassMember::ClassAnnotation { name, span }
                && name@ == pend[i].name@ && span == pend[i].span) by {
                assert(new[i] == members@[base.len() + i]);
            }
        }
    }
}

} // verus!
