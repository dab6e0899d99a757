use vstd::prelude::*;

use crate::text::{
    ascii_alphanumeric, ascii_digit, ascii_hex_digit, char_is_alphabetic, char_is_alphanumeric, chars_eq, chars_of, chars_range, push_chars,
    string_from_chars,
};
use crate::token::{QuoteStyle, Span, StringInfo, StringPrefix, FloatLiteral, Token, TokenKind};

verus! {

/// Sources are held to this many characters, so that every offset, line and
/// column the lexer counts fits in a `usize`.
pub const MAX_SOURCE_CHARS: usize = 0x0fff_ffff;

/// The number of bytes `c` takes in UTF-8.
pub open spec fn char_utf8_len(c: char) -> int {
    if (c as u32) < 0x80 {
        1
    } else if (c as u32) < 0x800 {
        2
    } else if (c as u32) < 0x10000 {
        3
    } else {
        4
    }
}

/// The number of bytes `s` takes in UTF-8.
pub open spec fn utf8_len(s: Seq<char>) -> int
    decreases s.len(),
{
    if s.len() == 0 {
        0
    } else {
        utf8_len(s.subrange(0, s.len() - 1)) + char_utf8_len(s[s.len() - 1])
    }
}

pub proof fn lemma_utf8_len_bounds(s: Seq<char>)
    ensures
        s.len() <= utf8_len(s) <= 4 * s.len(),
    decreases s.len(),
{
    if s.len() > 0 {
        lemma_utf8_len_bounds(s.subrange(0, s.len() - 1));
    }
}

pub proof fn lemma_utf8_len_take_step(s: Seq<char>, p: int)
    requires
        0 <= p < s.len(),
    ensures
        utf8_len(s.take(p + 1)) == utf8_len(s.take(p)) + char_utf8_len(s[p]),
{
    assert(s.take(p + 1).subrange(0, p) == s.take(p));
}

pub fn len_utf8(c: char) -> (n: usize)
    ensures
        n == char_utf8_len(c),
{
    let u = c as u32;
    if u < 0x80 {
        1
    } else if u < 0x800 {
        2
    } else if u < 0x10000 {
        3
    } else {
        4
    }
}

/// The number of times `c` occurs in `s`.
pub open spec fn count_char(s: Seq<char>, c: char) -> nat
    decreases s.len(),
{
    if s.len() == 0 {
        0
    } else {
        count_char(s.subrange(0, s.len() - 1), c) + if s[s.len() - 1] == c {
            1nat
        } else {
            0nat
        }
    }
}

pub proof fn lemma_count_char_take_mono(s: Seq<char>, c: char, a: int)
    requires
        0 <= a <= s.len(),
    ensures
        count_char(s.take(a), c) <= count_char(s, c),
    decreases s.len() - a,
{
    if a < s.len() {
        lemma_count_char_take_mono(s, c, a + 1);
        assert(s.take(a + 1).subrange(0, a) == s.take(a));
    } else {
        assert(s.take(a) == s);
    }
}

/// The (1-based) column of character `p`: one more than the number of
/// characters since the last newline before it.
pub open spec fn column_at(src: Seq<char>, p: int) -> int
    decreases p,
{
    if p <= 0 {
        1
    } else if src[p - 1] == '\n' {
        1
    } else {
        column_at(src, p - 1) + 1
    }
}

/// The text of a token is the source text at the byte offset its span records.
pub open spec fn from_source(src: Seq<char>, t: Token) -> bool {
    exists|p: int|
        #![trigger src.take(p)]
        0 <= p && p + t.text@.len() <= src.len() && src.subrange(p, p + t.text@.len()) == t.text@
            && t.span.offset == utf8_len(src.take(p))
}

/// Token `t` was read from `src` at character `a`: its text is the source
/// text there, and its offset that character's byte offset.
pub open spec fn token_at(src: Seq<char>, t: Token, a: int) -> bool {
    &&& t.span.line == 1 + count_char(src.take(a), '\n')
    &&& 0 <= a
    &&& a + t.text@.len() <= src.len()
    &&& src.subrange(a, a + t.text@.len()) == t.text@
    &&& t.span.offset == utf8_len(src.take(a))
    &&& t.span.column == column_at(src, a)
}

/// Character `q` of `src` lies within the text of token `t`.
pub open spec fn covers(src: Seq<char>, t: Token, q: int) -> bool {
    exists|a: int| #[trigger] token_at(src, t, a) && a <= q < a + t.text@.len()
}

/// Characters that separate tokens without belonging to one: spaces, tabs,
/// carriage returns, newlines, and a backslash that continues a line.
pub open spec fn skippable(src: Seq<char>, q: int) -> bool {
    let c = src[q];
    ||| c == ' '
    ||| c == '\t'
    ||| c == '\r'
    ||| c == '\n'
    ||| c == '\\' && q + 1 < src.len() && src[q + 1] == '\n'
}

/// A token may start at `a`: the character there is not a space, tab or
/// carriage return, which only separate tokens.
pub open spec fn starts_text(src: Seq<char>, a: int) -> bool {
    !(src[a] == ' ' || src[a] == '\t' || src[a] == '\r')
}

/// The text tokens of `toks` were read at the character positions `starts`,
/// each as the first character there calls for (`lexeme_at`), and each ending
/// at or before the position where the next one begins.
pub open spec fn ordered_at(src: Seq<char>, toks: Seq<Token>, starts: Seq<int>) -> bool {
    &&& starts.len() == toks.len()
    &&& forall|i: int|
        0 <= i < toks.len() && is_text_token(toks[i].kind) ==> #[trigger] token_at(src, toks[i], starts[i])
            && lexeme_at(src, starts[i], toks[i]) && starts_text(src, starts[i])
    &&& forall|i: int, j: int|
        #![trigger starts[i], starts[j]]
        0 <= i < j < toks.len() && is_text_token(toks[i].kind) && is_text_token(toks[j].kind) ==> starts[i]
            + toks[i].text@.len() <= starts[j]
}

/// The text tokens of `toks` come in source order and do not overlap.
pub open spec fn in_source_order(src: Seq<char>, toks: Seq<Token>) -> bool {
    exists|starts: Seq<int>| ordered_at(src, toks, starts)
}

/// As `in_source_order`, with every text token read at position `lo` or later.
pub open spec fn in_source_order_from(src: Seq<char>, toks: Seq<Token>, lo: int) -> bool {
    exists|starts: Seq<int>|
        #[trigger] ordered_at(src, toks, starts) && forall|i: int|
            0 <= i < toks.len() && is_text_token(toks[i].kind) ==> lo <= #[trigger] starts[i]
}

proof fn lemma_ordered_push(src: Seq<char>, toks: Seq<Token>, starts: Seq<int>, t: Token, a: int, lo: int)
    requires
        ordered_at(src, toks, starts),
        forall|i: int|
            0 <= i < toks.len() && is_text_token(toks[i].kind) ==> starts[i] + (#[trigger] toks[i]).text@.len() <= lo,
        is_text_token(t.kind) ==> lo <= a && token_at(src, t, a) && lexeme_at(src, a, t) && starts_text(src, a),
    ensures
        ordered_at(src, toks.push(t), starts.push(a)),
{
    let ts = toks.push(t);
    let ss = starts.push(a);
    assert forall|i: int| 0 <= i < ts.len() && is_text_token(ts[i].kind) implies #[trigger] token_at(src, ts[i], ss[i])
        && lexeme_at(src, ss[i], ts[i]) && starts_text(src, ss[i]) by {
        if i < toks.len() {
            assert(ts[i] == toks[i] && ss[i] == starts[i]);
        }
    }
    assert forall|i: int, j: int|
        #![trigger ss[i], ss[j]]
        0 <= i < j < ts.len() && is_text_token(ts[i].kind) && is_text_token(ts[j].kind) implies ss[i]
            + ts[i].text@.len() <= ss[j] by {
        assert(ts[i] == toks[i] && ss[i] == starts[i]);
        if j < toks.len() {
            assert(ts[j] == toks[j] && ss[j] == starts[j]);
        }
    }
}

/// Text tokens in source order have non-decreasing byte offsets.
pub proof fn lemma_ordered_offsets(src: Seq<char>, toks: Seq<Token>, starts: Seq<int>, i: int, j: int)
    requires
        ordered_at(src, toks, starts),
        0 <= i < j < toks.len(),
        is_text_token(toks[i].kind),
        is_text_token(toks[j].kind),
    ensures
        toks[i].span.offset <= toks[j].span.offset,
{
    assert(token_at(src, toks[i], starts[i]));
    assert(token_at(src, toks[j], starts[j]));
    assert(starts[i] + toks[i].text@.len() <= starts[j]);
    lemma_utf8_len_take_mono(src, starts[i], starts[j]);
}

/// A digit of a number in base `radix` (2, 10 or 16), or the separator `_`.
pub open spec fn digit_of_radix(c: char, radix: u64) -> bool {
    ||| c == '_'
    ||| radix == 10 && crate::text::is_digit(c)
    ||| radix == 16 && crate::text::is_hex_digit(c)
    ||| radix == 2 && (c == '0' || c == '1')
}

/// Where the run of characters `c` that starts at `a` ends.
pub open spec fn skip_run(src: Seq<char>, a: int, c: char) -> int
    decreases src.len() - a,
{
    if 0 <= a < src.len() && src[a] == c {
        skip_run(src, a + 1, c)
    } else {
        a
    }
}

/// Where the run of spaces and tabs that starts at `a` ends.
pub open spec fn ws_end(src: Seq<char>, a: int) -> int
    decreases src.len() - a,
{
    if 0 <= a < src.len() && (src[a] == ' ' || src[a] == '\t') {
        ws_end(src, a + 1)
    } else {
        a
    }
}

/// Where the line holding `a` ends: at its newline, or at the end of the source.
pub open spec fn line_end(src: Seq<char>, a: int) -> int
    decreases src.len() - a,
{
    if 0 <= a < src.len() && src[a] != '\n' {
        line_end(src, a + 1)
    } else {
        a
    }
}

pub proof fn lemma_ws_end_bounds(src: Seq<char>, a: int)
    requires
        0 <= a <= src.len(),
    ensures
        a <= ws_end(src, a) <= src.len(),
    decreases src.len() - a,
{
    if a < src.len() && (src[a] == ' ' || src[a] == '\t') {
        lemma_ws_end_bounds(src, a + 1);
    }
}

pub proof fn lemma_ws_end_stops(src: Seq<char>, a: int)
    requires
        0 <= a <= src.len(),
    ensures
        ws_end(src, a) == src.len() || !(src[ws_end(src, a)] == ' ' || src[ws_end(src, a)] == '\t'),
    decreases src.len() - a,
{
    if a < src.len() && (src[a] == ' ' || src[a] == '\t') {
        lemma_ws_end_stops(src, a + 1);
    }
}

pub proof fn lemma_line_end_bounds(src: Seq<char>, a: int)
    requires
        0 <= a <= src.len(),
    ensures
        a <= line_end(src, a) <= src.len(),
    decreases src.len() - a,
{
    if a < src.len() && src[a] != '\n' {
        lemma_line_end_bounds(src, a + 1);
    }
}

/// The indentation width of the spaces and tabs `src[a..b]`: a space adds one
/// column, a tab moves on to the next multiple of four.
pub open spec fn indent_width(src: Seq<char>, a: int, b: int) -> nat
    decreases b - a,
{
    if b <= a {
        0
    } else {
        let w = indent_width(src, a, b - 1);
        if src[b - 1] == '\t' {
            (w / 4 + 1) * 4
        } else {
            w + 1
        }
    }
}

/// The indentation of the first line after the newline at `i` that holds more
/// than whitespace and a comment, if there is one.
pub open spec fn next_real_indent(src: Seq<char>, i: int) -> Option<nat>
    decreases src.len() - i,
{
    if i < 0 || i >= src.len() {
        None
    } else {
        let s = i + 1;
        let e = ws_end(src, s);
        proof {
            lemma_ws_end_bounds(src, s);
        }
        if e >= src.len() {
            None
        } else if src[e] == '#' {
            proof {
                lemma_line_end_bounds(src, e);
            }
            next_real_indent(src, line_end(src, e))
        } else if src[e] == '\n' {
            next_real_indent(src, e)
        } else {
            Some(indent_width(src, s, e))
        }
    }
}

/// The indentation stack after closing, for a line of width `w`, every block
/// deeper than `w` (the outermost level always stays).
pub open spec fn close_blocks(stack: Seq<usize>, w: nat) -> Seq<usize>
    decreases stack.len(),
{
    if stack.len() > 1 && stack.last() > w {
        close_blocks(stack.drop_last(), w)
    } else {
        stack
    }
}

/// The indentation width of the line whose leading whitespace starts at `a`.
pub open spec fn line_indent(src: Seq<char>, a: int) -> nat {
    indent_width(src, a, ws_end(src, a))
}

/// A comment at `e`, on a line indented `w` inside a block indented `top`,
/// belongs to that block: it is at the block's indent, or lower but followed
/// by a real line indented deeper than itself.
pub open spec fn comment_in_block(src: Seq<char>, e: int, w: nat, top: int) -> bool {
    &&& src[e] == '#'
    &&& (w == top || (w < top && (next_real_indent(src, line_end(src, e)) matches Some(nx) && nx > w)))
}

/// The line whose text starts at `e`, indented `w`, opens a block (deeper than
/// `top`) or closes one (shallower, with `depth` blocks on the stack): it is
/// neither blank nor a comment that stays in the current block.
pub open spec fn indentation_changes(src: Seq<char>, e: int, w: nat, top: int, depth: int) -> bool {
    &&& e < src.len()
    &&& src[e] != '\n'
    &&& !comment_in_block(src, e, w, top)
    &&& (w > top || (w < top && depth > 1))
}

/// Where the lexer stands between two tokens: its position, the widths of
/// the open indentation blocks, how many queued `Dedent`s remain, whether it
/// is at the start of a line, and how deep it is inside brackets.
pub struct LexState {
    pub pos: int,
    pub stack: Seq<usize>,
    pub pending: nat,
    pub line_start: bool,
    pub depth: int,
}

/// Where the lexer starts: at the first character, at a line start, with the
/// outermost block (indentation 0) open and no bracket.
pub open spec fn initial_lex_state() -> LexState {
    LexState { pos: 0, stack: seq![0usize], pending: 0, line_start: true, depth: 0 }
}

/// The bracket depth after a token that starts with `c`.
pub open spec fn depth_after(d: int, c: char) -> int {
    if c == '\u{28}' || c == '\u{5b}' || c == '\u{7b}' {
        d + 1
    } else if c == '\u{29}' || c == '\u{5d}' || c == '\u{7d}' {
        if d > 0 {
            d - 1
        } else {
            0
        }
    } else {
        d
    }
}

/// The next token `t` read from state `s` (with no queued `Dedent`), and the
/// state `s2` after it. At a line start outside brackets, a line whose
/// indentation opens a block gives an `Indent` of its width, one that closes
/// blocks a `Dedent` (the others queued); otherwise spaces and tabs are
/// skipped, a backslash before a newline joins the lines, a carriage return
/// is skipped, a newline outside brackets gives a `Newline` and inside them
/// is skipped, at the end of the source each open block gets a `Dedent` and
/// then `Eof` follows, and any other character starts the text token that
/// `lexeme_at` describes.
pub open spec fn scan_ok(src: Seq<char>, s: LexState, t: Token, s2: LexState) -> bool
    decreases src.len() - s.pos, if s.line_start { 1int } else { 0int },
{
    if s.pos < 0 || s.pos > src.len() {
        false
    } else if s.line_start {
        let e = ws_end(src, s.pos);
        proof {
            lemma_ws_end_bounds(src, s.pos);
        }
        if s.depth == 0 {
            let w = line_indent(src, s.pos);
            let top = s.stack.last() as int;
            if indentation_changes(src, e, w, top, s.stack.len() as int) {
                if w > top {
                    &&& t.kind is Indent
                    &&& t.span.length == w
                    &&& s2 == LexState { pos: e, stack: s.stack.push(w as usize), pending: 0, line_start: false, depth: 0 }
                } else {
                    let c = close_blocks(s.stack, w);
                    &&& t.kind is Dedent
                    &&& s2 == LexState {
                        pos: e,
                        stack: c,
                        pending: (s.stack.len() - c.len() - 1) as nat,
                        line_start: false,
                        depth: 0,
                    }
                }
            } else {
                scan_ok(src, LexState { pos: e, line_start: false, ..s }, t, s2)
            }
        } else {
            scan_ok(src, LexState { pos: e, line_start: false, ..s }, t, s2)
        }
    } else {
        let p = ws_end(src, s.pos);
        proof {
            lemma_ws_end_bounds(src, s.pos);
        }
        if p >= src.len() {
            if s.stack.len() > 1 {
                t.kind is Dedent && s2 == LexState { pos: p, stack: s.stack.drop_last(), ..s }
            } else {
                t.kind is Eof && s2 == LexState { pos: p, ..s }
            }
        } else {
            let c = src[p];
            if c == '\\' && p + 1 < src.len() && src[p + 1] == '\n' {
                scan_ok(src, LexState { pos: p + 2, ..s }, t, s2)
            } else if c == '\r' {
                scan_ok(src, LexState { pos: p + 1, ..s }, t, s2)
            } else if c == '\n' {
                if s.depth > 0 {
                    scan_ok(src, LexState { pos: p + 1, line_start: true, ..s }, t, s2)
                } else {
                    t.kind is Newline && token_at(src, t, p) && s2 == LexState { pos: p + 1, line_start: true, ..s }
                }
            } else {
                &&& is_text_token(t.kind)
                &&& token_at(src, t, p)
                &&& lexeme_at(src, p, t)
                &&& s2 == LexState { pos: p + t.text@.len(), depth: depth_after(s.depth, c), ..s }
            }
        }
    }
}

/// At a line start whose indentation opens or closes no block (or inside
/// brackets), reading goes on from the end of the line's indentation.
proof fn lemma_scan_past_line_start(src: Seq<char>, si: LexState, t: Token, s2: LexState)
    requires
        0 <= si.pos <= src.len(),
        si.line_start,
        si.depth == 0 ==> !indentation_changes(
            src,
            ws_end(src, si.pos),
            line_indent(src, si.pos),
            si.stack.last() as int,
            si.stack.len() as int,
        ),
        scan_ok(src, LexState { pos: ws_end(src, si.pos), line_start: false, ..si }, t, s2),
    ensures
        scan_ok(src, si, t, s2),
{
}

/// The next token `t` read from state `s`, and the state `s2` after it: a
/// queued `Dedent` first, else what `scan_ok` describes.
pub open spec fn step_ok(src: Seq<char>, s: LexState, t: Token, s2: LexState) -> bool {
    if s.pending > 0 {
        t.kind is Dedent && s2 == LexState { pending: (s.pending - 1) as nat, ..s }
    } else {
        scan_ok(src, s, t, s2)
    }
}

/// The tokens `toks` are what the lexer reads from `src` starting in state
/// `s0`: each token is the next one from the state the previous ones left.
pub open spec fn lexes(src: Seq<char>, s0: LexState, toks: Seq<Token>) -> bool {
    exists|states: Seq<LexState>|
        #![trigger states.len()]
        states.len() == toks.len() + 1 && states[0] == s0 && forall|k: int|
            0 <= k < toks.len() ==> step_ok(src, #[trigger] states[k], toks[k], states[k + 1])
}

/// Tokenizes GDScript source code into a stream of tokens.
pub struct Lexer {
    chars: Vec<char>,
    position: usize,
    byte_offset: usize,
    line: usize,
    column: usize,
    indent_stack: Vec<usize>,
    pending_tokens: Vec<Token>,
    at_line_start: bool,
    paren_depth: usize,
}

impl Lexer {
    /// The characters being tokenized.
    pub closed spec fn source(&self) -> Seq<char> {
        self.chars@
    }

    /// How many characters of the source the lexer has read.
    pub closed spec fn consumed(&self) -> int {
        self.position as int
    }

    /// Indents opened and not yet closed by a Dedent the lexer handed out.
    /// Where the lexer stands: see `LexState`.
    pub closed spec fn state(&self) -> LexState {
        LexState {
            pos: self.position as int,
            stack: self.indent_stack@,
            pending: self.pending_tokens@.len(),
            line_start: self.at_line_start,
            depth: self.paren_depth as int,
        }
    }

    pub closed spec fn open_indents(&self) -> int {
        self.indent_stack@.len() - 1 + self.pending_tokens@.len()
    }

    /// Decreases with every token the lexer hands out, until the end.
    pub closed spec fn measure(&self) -> int {
        2 * (self.chars@.len() - self.position) + self.indent_stack@.len()
            + self.pending_tokens@.len() + if self.at_line_start {
            1int
        } else {
            0int
        }
    }

    /// The lexer has handed out everything, ending with `Eof`.
    pub closed spec fn finished(&self) -> bool {
        self.position >= self.chars@.len() && self.indent_stack@.len() == 1
            && self.pending_tokens@.len() == 0
    }

    /// The lexers internal state is consistent.
    pub closed spec fn wf(&self) -> bool {
        &&& self.chars@.len() <= MAX_SOURCE_CHARS
        &&& self.position <= self.chars@.len()
        &&& self.byte_offset == utf8_len(self.chars@.take(self.position as int))
        &&& 1 <= self.line <= self.position + 1
        &&& self.line == 1 + count_char(self.chars@.take(self.position as int), '\n')
        &&& 1 <= self.column <= self.position + 1
        &&& self.column == column_at(self.chars@, self.position as int)
        &&& self.paren_depth <= self.position
        &&& self.indent_stack@.len() >= 1
        &&& forall|i: int|
            0 <= i < self.pending_tokens@.len() ==> {
                &&& (#[trigger] self.pending_tokens@[i]).kind is Dedent
                &&& token_ok(self.chars@, self.pending_tokens@[i])
            }
    }

    pub fn new(source: &str) -> (l: Lexer)
        requires
            source@.len() <= MAX_SOURCE_CHARS,
        ensures
            l.wf(),
            l.source() == source@,
            l.open_indents() == 0,
            l.consumed() == 0,
            l.state() == initial_lex_state(),
    {
        let chars = chars_of(source);
        let mut indent_stack: Vec<usize> = Vec::new();
        indent_stack.push(0);
        let l = Lexer {
            chars,
            position: 0,
            byte_offset: 0,
            line: 1,
            column: 1,
            indent_stack,
            pending_tokens: Vec::new(),
            at_line_start: true,
            paren_depth: 0,
        };
        assert(l.chars@.take(0) == Seq::<char>::empty());
        l
    }

    proof fn lemma_line_bound(&self)
        requires
            self.wf(),
        ensures
            self.line <= 1 + count_char(self.chars@, '\n'),
    {
        lemma_count_char_take_mono(self.chars@, '\n', self.position as int);
    }

    fn is_at_end(&self) -> (r: bool)
        requires
            self.wf(),
        ensures
            r == (self.position >= self.chars@.len()),
    {
        self.position >= self.chars.len()
    }

    fn current_char(&self) -> (c: char)
        requires
            self.wf(),
            self.position < self.chars@.len(),
        ensures
            c == self.chars@[self.position as int],
    {
        self.chars[self.position]
    }

    fn peek_char_at(&self, offset: usize) -> (r: Option<char>)
        requires
            self.wf(),
            offset <= 2,
        ensures
            r == if self.position + offset < self.chars@.len() {
                Some(self.chars@[self.position + offset])
            } else {
                None::<char>
            },
    {
        if self.position + offset < self.chars.len() {
            Some(self.chars[self.position + offset])
        } else {
            None
        }
    }

    fn peek_char(&self) -> (r: Option<char>)
        requires
            self.wf(),
        ensures
            r == if self.position + 1 < self.chars@.len() {
                Some(self.chars@[self.position + 1])
            } else {
                None::<char>
            },
    {
        self.peek_char_at(1)
    }

    fn peek_is_quote(&self) -> (r: bool)
        requires
            self.wf(),
        ensures
            r == (self.position + 1 < self.chars@.len() && (self.chars@[self.position + 1] == '\u{22}'
                || self.chars@[self.position + 1] == '\'')),
    {
        match self.peek_char() {
            Some(c) => c == '\u{22}' || c == '\'',
            None => false,
        }
    }

    /// Whether the current character is `c`.
    fn current_is(&self, c: char) -> (r: bool)
        requires
            self.wf(),
        ensures
            r == (self.position < self.chars@.len() && self.chars@[self.position as int] == c),
    {
        !self.is_at_end() && self.current_char() == c
    }

    /// Step past the current character, which is not a newline.
    fn advance(&mut self)
        requires
            old(self).wf(),
            old(self).position < old(self).chars@.len(),
            old(self).chars@[old(self).position as int] != '\n',
        ensures
            final(self).wf(),
            final(self).chars == old(self).chars,
            final(self).position == old(self).position + 1,
            final(self).line == old(self).line,
            final(self).column == old(self).column + 1,
            final(self).indent_stack == old(self).indent_stack,
            final(self).pending_tokens == old(self).pending_tokens,
            final(self).at_line_start == old(self).at_line_start,
            final(self).paren_depth == old(self).paren_depth,
    {
        proof {
            lemma_utf8_len_take_step(self.chars@, self.position as int);
            lemma_utf8_len_bounds(self.chars@.take(self.position + 1));
            assert(self.chars@.take(self.position + 1).subrange(0, self.position as int) == self.chars@.take(self.position as int));
        }
        self.byte_offset = self.byte_offset + len_utf8(self.chars[self.position]);
        self.position = self.position + 1;
        self.column = self.column + 1;
    }

    /// Step past a newline character, starting a new line.
    fn advance_newline(&mut self)
        requires
            old(self).wf(),
            old(self).position < old(self).chars@.len(),
            old(self).chars@[old(self).position as int] == '\n',
        ensures
            final(self).wf(),
            final(self).chars == old(self).chars,
            final(self).position == old(self).position + 1,
            final(self).line == old(self).line + 1,
            final(self).column == 1,
            final(self).indent_stack == old(self).indent_stack,
            final(self).pending_tokens == old(self).pending_tokens,
            final(self).at_line_start == old(self).at_line_start,
            final(self).paren_depth == old(self).paren_depth,
    {
        proof {
            lemma_utf8_len_take_step(self.chars@, self.position as int);
            lemma_utf8_len_bounds(self.chars@.take(self.position + 1));
            assert(self.chars@.take(self.position + 1).subrange(0, self.position as int) == self.chars@.take(self.position as int));
        }
        self.byte_offset = self.byte_offset + len_utf8(self.chars[self.position]);
        self.position = self.position + 1;
        self.line = self.line + 1;
        self.column = 1;
    }
}

/// The keyword (or literal word) a text spells, if it is one.
pub open spec fn keyword_kind(text: Seq<char>) -> Option<TokenKind> {
    if text == "class_name"@ { Some(TokenKind::ClassName) }
    else if text == "extends"@ { Some(TokenKind::Extends) }
    else if text == "class"@ { Some(TokenKind::Class) }
    else if text == "func"@ { Some(TokenKind::Func) }
    else if text == "var"@ { Some(TokenKind::Var) }
    else if text == "const"@ { Some(TokenKind::Const) }
    else if text == "signal"@ { Some(TokenKind::Signal) }
    else if text == "enum"@ { Some(TokenKind::Enum) }
    else if text == "static"@ { Some(TokenKind::Static) }
    else if text == "if"@ { Some(TokenKind::If) }
    else if text == "elif"@ { Some(TokenKind::Elif) }
    else if text == "else"@ { Some(TokenKind::Else) }
    else if text == "for"@ { Some(TokenKind::For) }
    else if text == "while"@ { Some(TokenKind::While) }
    else if text == "match"@ { Some(TokenKind::Match) }
    else if text == "when"@ { Some(TokenKind::When) }
    else if text == "break"@ { Some(TokenKind::Break) }
    else if text == "continue"@ { Some(TokenKind::Continue) }
    else if text == "pass"@ { Some(TokenKind::Pass) }
    else if text == "return"@ { Some(TokenKind::Return) }
    else if text == "as"@ { Some(TokenKind::As) }
    else if text == "is"@ { Some(TokenKind::Is) }
    else if text == "in"@ { Some(TokenKind::In) }
    else if text == "not"@ { Some(TokenKind::Not) }
    else if text == "and"@ { Some(TokenKind::And) }
    else if text == "or"@ { Some(TokenKind::Or) }
    else if text == "self"@ { Some(TokenKind::Self_) }
    else if text == "super"@ { Some(TokenKind::Super) }
    else if text == "await"@ { Some(TokenKind::Await) }
    else if text == "assert"@ { Some(TokenKind::Assert) }
    else if text == "breakpoint"@ { Some(TokenKind::Breakpoint) }
    else if text == "preload"@ { Some(TokenKind::Preload) }
    else if text == "void"@ { Some(TokenKind::Void) }
    else if text == "trait"@ { Some(TokenKind::Trait) }
    else if text == "true"@ { Some(TokenKind::Bool(true)) }
    else if text == "false"@ { Some(TokenKind::Bool(false)) }
    else if text == "null"@ { Some(TokenKind::Null) }
    else { None }
}

/// The text of an operator or delimiter token kind.
pub open spec fn operator_text(k: TokenKind) -> Option<Seq<char>> {
    match k {
        TokenKind::Plus => Some(seq!['+']),
        TokenKind::Minus => Some(seq!['-']),
        TokenKind::Star => Some(seq!['*']),
        TokenKind::StarStar => Some(seq!['*', '*']),
        TokenKind::Slash => Some(seq!['/']),
        TokenKind::Percent => Some(seq!['%']),
        TokenKind::Equal => Some(seq!['=', '=']),
        TokenKind::NotEqual => Some(seq!['!', '=']),
        TokenKind::Less => Some(seq!['<']),
        TokenKind::LessEqual => Some(seq!['<', '=']),
        TokenKind::Greater => Some(seq!['>']),
        TokenKind::GreaterEqual => Some(seq!['>', '=']),
        TokenKind::Assign => Some(seq!['=']),
        TokenKind::PlusAssign => Some(seq!['+', '=']),
        TokenKind::MinusAssign => Some(seq!['-', '=']),
        TokenKind::StarAssign => Some(seq!['*', '=']),
        TokenKind::StarStarAssign => Some(seq!['*', '*', '=']),
        TokenKind::SlashAssign => Some(seq!['/', '=']),
        TokenKind::PercentAssign => Some(seq!['%', '=']),
        TokenKind::AmpersandAssign => Some(seq!['&', '=']),
        TokenKind::PipeAssign => Some(seq!['|', '=']),
        TokenKind::CaretAssign => Some(seq!['^', '=']),
        TokenKind::LessLessAssign => Some(seq!['<', '<', '=']),
        TokenKind::GreaterGreaterAssign => Some(seq!['>', '>', '=']),
        TokenKind::Arrow => Some(seq!['-', '>']),
        TokenKind::AmpersandAmpersand => Some(seq!['&', '&']),
        TokenKind::PipePipe => Some(seq!['|', '|']),
        TokenKind::Bang => Some(seq!['!']),
        TokenKind::Ampersand => Some(seq!['&']),
        TokenKind::Pipe => Some(seq!['|']),
        TokenKind::Caret => Some(seq!['^']),
        TokenKind::Tilde => Some(seq!['~']),
        TokenKind::LessLess => Some(seq!['<', '<']),
        TokenKind::GreaterGreater => Some(seq!['>', '>']),
        TokenKind::Dot => Some(seq!['.']),
        TokenKind::DotDot => Some(seq!['.', '.']),
        TokenKind::Ellipsis => Some(seq!['.', '.', '.']),
        TokenKind::Dollar => Some(seq!['$']),
        TokenKind::UniqueNodeMarker => Some(seq!['%']),
        TokenKind::LeftParen => Some(seq!['\u{28}']),
        TokenKind::RightParen => Some(seq!['\u{29}']),
        TokenKind::LeftBracket => Some(seq!['\u{5b}']),
        TokenKind::RightBracket => Some(seq!['\u{5d}']),
        TokenKind::LeftBrace => Some(seq!['\u{7b}']),
        TokenKind::RightBrace => Some(seq!['\u{7d}']),
        TokenKind::Comma => Some(seq![',']),
        TokenKind::Colon => Some(seq![':']),
        TokenKind::Semicolon => Some(seq![';']),
        _ => None,
    }
}

/// `s` with every `_` separator removed.
pub open spec fn strip_underscores(s: Seq<char>) -> Seq<char>
    decreases s.len(),
{
    if s.len() == 0 {
        s
    } else {
        let init = strip_underscores(s.subrange(0, s.len() - 1));
        if s[s.len() - 1] == '_' {
            init
        } else {
            init.push(s[s.len() - 1])
        }
    }
}

/// The value of a digit in the given radix (2, 10 or 16; either case for hex).
pub open spec fn digit_value(c: char, radix: int) -> Option<int> {
    let d = if '0' <= c && c <= '9' {
        (c as u32 - '0' as u32) as int
    } else if 'a' <= c && c <= 'f' {
        (c as u32 - 'a' as u32 + 10) as int
    } else if 'A' <= c && c <= 'F' {
        (c as u32 - 'A' as u32 + 10) as int
    } else {
        99
    };
    if d < radix {
        Some(d)
    } else {
        None
    }
}

/// The value of a non-empty digit sequence in the given radix.
pub open spec fn digits_value(s: Seq<char>, radix: int) -> Option<int>
    decreases s.len(),
{
    if s.len() == 0 {
        None
    } else if s.len() == 1 {
        digit_value(s[0], radix)
    } else {
        match (digits_value(s.subrange(0, s.len() - 1), radix), digit_value(s[s.len() - 1], radix)) {
            (Some(a), Some(d)) => Some(a * radix + d),
            _ => None,
        }
    }
}

/// The value an integer literal denotes: decimal, or hex after `0x`/`0X`,
/// or binary after `0b`/`0B`, with `_` separators ignored.
pub open spec fn int_literal_value(text: Seq<char>) -> Option<int> {
    if text.len() >= 2 && text[0] == '0' && (text[1] == 'x' || text[1] == 'X') {
        digits_value(strip_underscores(text.subrange(2, text.len() as int)), 16)
    } else if text.len() >= 2 && text[0] == '0' && (text[1] == 'b' || text[1] == 'B') {
        digits_value(strip_underscores(text.subrange(2, text.len() as int)), 2)
    } else {
        digits_value(strip_underscores(text), 10)
    }
}

pub open spec fn quote_char(q: QuoteStyle) -> char {
    match q {
        QuoteStyle::Single => '\'',
        QuoteStyle::Double => '\u{22}',
    }
}

/// The characters a string prefix is written with.
pub open spec fn prefix_matches(p: StringPrefix, s: Seq<char>) -> bool {
    match p {
        StringPrefix::Bare => s.len() == 0,
        StringPrefix::Raw => s == seq!['r'] || s == seq!['R'],
        StringPrefix::StringName => s == seq!['&'],
        StringPrefix::NodePath => s == seq!['^'],
    }
}

pub open spec fn repeat_char(c: char, n: nat) -> Seq<char> {
    Seq::new(n, |_i: int| c)
}

/// A string literals text is its prefix, its opening quotes, its value and its closing quotes.
pub open spec fn string_text_matches(info: StringInfo, text: Seq<char>) -> bool {
    let pl: int = if info.prefix is Bare { 0 } else { 1 };
    let d: int = if info.is_multiline { 3 } else { 1 };
    let q = quote_char(info.quote_style);
    let vl = info.value@.len();
    &&& text.len() == pl + 2 * d + vl
    &&& prefix_matches(info.prefix, text.subrange(0, pl))
    &&& text.subrange(pl, pl + d) == repeat_char(q, d as nat)
    &&& text.subrange(pl + d, pl + d + vl) == info.value@
    &&& text.subrange(pl + d + vl, text.len() as int) == repeat_char(q, d as nat)
}

/// What a tokens kind says about its text.
pub open spec fn kind_matches_text(k: TokenKind, text: Seq<char>) -> bool {
    match k {
        TokenKind::Identifier(n) => n@ == text && text.len() > 0 && keyword_kind(text) is None,
        TokenKind::Integer(v) => int_literal_value(text) == Some(v as int),
        TokenKind::Float(f) => f.digits@ == strip_underscores(text),
        TokenKind::String(info) => string_text_matches(info, text),
        TokenKind::Annotation(n) => text == seq!['@'] + n@,
        TokenKind::Comment(c) => text == seq!['#'] + c@ && !c@.contains('\n') && !(c@.len() > 0
            && c@[0] == '#'),
        TokenKind::DocComment(c) => text == seq!['#', '#'] + c@ && !c@.contains('\n'),
        TokenKind::Newline => text == seq!['\n'],
        TokenKind::Indent => text.len() == 0,
        TokenKind::Dedent => text.len() == 0,
        TokenKind::Eof => text.len() == 0,
        TokenKind::Error(_) => text.len() > 0,
        _ => keyword_kind(text) == Some(k) || operator_text(k) == Some(text),
    }
}

/// A token read from `src`: its text is the source text at the offset of its
/// span, its kind agrees with that text, and a text token's span is as long as
/// its text in bytes.
pub open spec fn token_ok(src: Seq<char>, t: Token) -> bool {
    &&& from_source(src, t)
    &&& 1 <= t.span.line <= 1 + count_char(src, '\n')
    &&& kind_matches_text(t.kind, t.text@)
    &&& is_text_token(t.kind) ==> t.span.length == utf8_len(t.text@)
    &&& (t.kind is Dedent || t.kind is Eof) ==> t.span.length == 0
}

/// A token read from source text, as opposed to an indentation change or the end.
pub open spec fn is_text_token(k: TokenKind) -> bool {
    !(k is Indent) && !(k is Dedent) && !(k is Eof)
}

/// How a token changes the number of open indentation blocks.
pub open spec fn indent_delta(k: TokenKind) -> int {
    match k {
        TokenKind::Indent => 1,
        TokenKind::Dedent => -1,
        _ => 0,
    }
}

/// Open indentation blocks after the tokens `toks`.
pub open spec fn indent_balance(toks: Seq<Token>) -> int
    decreases toks.len(),
{
    if toks.len() == 0 {
        0
    } else {
        indent_balance(toks.subrange(0, toks.len() - 1)) + indent_delta(toks[toks.len() - 1].kind)
    }
}


/// The bytes of a prefix split into those of a shorter prefix and the rest.
pub proof fn lemma_utf8_len_split(s: Seq<char>, a: int, b: int)
    requires
        0 <= a <= b <= s.len(),
    ensures
        utf8_len(s.take(b)) == utf8_len(s.take(a)) + utf8_len(s.subrange(a, b)),
    decreases b - a,
{
    if a < b {
        lemma_utf8_len_split(s, a, b - 1);
        lemma_utf8_len_take_step(s, b - 1);
        assert(s.subrange(a, b).subrange(0, b - 1 - a) == s.subrange(a, b - 1));
        assert(s.subrange(a, b)[b - 1 - a] == s[b - 1]);
    } else {
        assert(s.subrange(a, b).len() == 0);
    }
}

pub proof fn lemma_utf8_len_take_mono(s: Seq<char>, a: int, b: int)
    requires
        0 <= a <= b <= s.len(),
    ensures
        utf8_len(s.take(a)) <= utf8_len(s.take(b)),
    decreases b - a,
{
    if a < b {
        lemma_utf8_len_take_mono(s, a, b - 1);
        lemma_utf8_len_take_step(s, b - 1);
    }
}

/// `strip_underscores` of a prefix grows by one character step.
pub proof fn lemma_strip_step(s: Seq<char>, i: int)
    requires
        0 <= i < s.len(),
    ensures
        strip_underscores(s.take(i + 1)) == if s[i] == '_' {
            strip_underscores(s.take(i))
        } else {
            strip_underscores(s.take(i)).push(s[i])
        },
{
    assert(s.take(i + 1).subrange(0, i) == s.take(i));
}

/// `s` without its `_` separators.
pub fn strip_underscores_exec(s: &[char]) -> (r: Vec<char>)
    ensures
        r@ == strip_underscores(s@),
{
    let mut r: Vec<char> = Vec::new();
    let mut i: usize = 0;
    while i < s.len()
        invariant
            i <= s@.len(),
            r@ == strip_underscores(s@.take(i as int)),
        decreases s@.len() - i,
    {
        proof {
            lemma_strip_step(s@, i as int);
        }
        if s[i] != '_' {
            r.push(s[i]);
        }
        i = i + 1;
    }
    assert(s@.take(s@.len() as int) == s@);
    r
}

fn digit_of(c: char, radix: u64) -> (r: Option<u64>)
    requires
        radix == 2 || radix == 10 || radix == 16,
    ensures
        match digit_value(c, radix as int) {
            Some(d) => r == Some(d as u64),
            None => r is None,
        },
{
    let d: u64 = if '0' <= c && c <= '9' {
        (c as u32 - '0' as u32) as u64
    } else if 'a' <= c && c <= 'f' {
        (c as u32 - 'a' as u32 + 10) as u64
    } else if 'A' <= c && c <= 'F' {
        (c as u32 - 'A' as u32 + 10) as u64
    } else {
        99
    };
    if d < radix {
        Some(d)
    } else {
        None
    }
}

proof fn lemma_digits_prefix(s: Seq<char>, radix: int, i: int)
    requires
        1 <= i <= s.len(),
        radix >= 1,
    ensures
        digits_value(s.take(i), radix) is None ==> digits_value(s, radix) is None,
        digits_value(s, radix) matches Some(v) ==> digits_value(s.take(i), radix) matches Some(
            w,
        ) && w <= v,
    decreases s.len() - i,
{
    if i < s.len() {
        let init = s.subrange(0, s.len() - 1);
        assert(init.take(i) == s.take(i));
        lemma_digits_prefix(init, radix, i);
        lemma_digits_nonneg(init, radix);
        if s.len() >= 2 {
            match (digits_value(init, radix), digit_value(s[s.len() - 1], radix)) {
                (Some(a), Some(d)) => {
                    assert(a * radix + d >= a) by (nonlinear_arith)
                        requires
                            a >= 0,
                            d >= 0,
                            radix >= 1,
                    ;
                },
                _ => {},
            }
        }
    } else {
        assert(s.take(i) == s);
    }
}

proof fn lemma_digits_nonneg(s: Seq<char>, radix: int)
    requires
        radix >= 1,
    ensures
        digits_value(s, radix) matches Some(v) ==> v >= 0,
    decreases s.len(),
{
    if s.len() >= 2 {
        lemma_digits_nonneg(s.subrange(0, s.len() - 1), radix);
        match (digits_value(s.subrange(0, s.len() - 1), radix), digit_value(s[s.len() - 1], radix)) {
            (Some(a), Some(d)) => {
                assert(a * radix + d >= 0) by (nonlinear_arith)
                    requires
                        a >= 0,
                        d >= 0,
                        radix >= 1,
                ;
            },
            _ => {},
        }
    }
}

/// The `i64` value of a digit sequence in the given radix, or `None` when the
/// sequence is empty, holds a non-digit, or does not fit (as `i64::from_str_radix` decides).
pub fn parse_digits(s: &[char], radix: u64) -> (r: Option<i64>)
    requires
        radix == 2 || radix == 10 || radix == 16,
    ensures
        r == match digits_value(s@, radix as int) {
            Some(v) => if v <= i64::MAX {
                Some(v as i64)
            } else {
                None::<i64>
            },
            None => None::<i64>,
        },
{
    if s.len() == 0 {
        return None;
    }
    let first = match digit_of(s[0], radix) {
        Some(d) => d,
        None => {
            proof {
                assert(s@.take(1) == seq![s@[0]]);
                lemma_digits_prefix(s@, radix as int, 1);
            }
            return None;
        },
    };
    assert(s@.take(1) == seq![s@[0]]);
    let mut acc: u64 = first;
    let mut i: usize = 1;
    while i < s.len()
        invariant
            1 <= i <= s@.len(),
            radix == 2 || radix == 10 || radix == 16,
            acc <= i64::MAX,
            digits_value(s@.take(i as int), radix as int) == Some(acc as int),
        decreases s@.len() - i,
    {
        assert(s@.take(i + 1).subrange(0, i as int) == s@.take(i as int));
        match digit_of(s[i], radix) {
            None => {
                proof {
                    lemma_digits_prefix(s@, radix as int, i + 1);
                }
                return None;
            },
            Some(d) => {
                assert(acc as int * radix as int <= 0x7fff_ffff_ffff_ffff * 16) by (nonlinear_arith)
                    requires
                        acc <= 0x7fff_ffff_ffff_ffff,
                        radix <= 16,
                ;
                let next: u128 = acc as u128 * radix as u128 + d as u128;
                if next > 0x7fff_ffff_ffff_ffff {
                    proof {
                        lemma_digits_prefix(s@, radix as int, i + 1);
                    }
                    return None;
                }
                acc = next as u64;
                i = i + 1;
            },
        }
    }
    assert(s@.take(s@.len() as int) == s@);
    Some(acc as i64)
}

/// Whether `ch` starts one of the operator or delimiter tokens.
/// `x` stands in `src` at position `p`.
pub open spec fn text_at(src: Seq<char>, p: int, x: Seq<char>) -> bool {
    0 <= p && p + x.len() <= src.len() && src.subrange(p, p + x.len()) == x
}

/// `k` is an operator whose text stands at `p`, and no operator with a longer
/// text does: the operator read there by longest match.
pub open spec fn longest_operator_at(src: Seq<char>, p: int, k: TokenKind) -> bool {
    &&& operator_text(k) is Some
    &&& text_at(src, p, operator_text(k)->0)
    &&& forall|k2: TokenKind|
        #[trigger] operator_text(k2) is Some && text_at(src, p, operator_text(k2)->0) ==> operator_text(k2)->0.len()
            <= operator_text(k)->0.len()
}

/// Where the run of digits of base `radix` (and `_` separators) that starts at `a` ends.
pub open spec fn digit_run(src: Seq<char>, a: int, radix: u64) -> int
    decreases src.len() - a,
{
    if 0 <= a < src.len() && digit_of_radix(src[a], radix) {
        digit_run(src, a + 1, radix)
    } else {
        a
    }
}

/// A `0x`/`0X` (base 16) or `0b`/`0B` (base 2) prefix at `p`.
pub open spec fn radix_prefix_at(src: Seq<char>, p: int, radix: u64) -> bool {
    &&& p + 1 < src.len()
    &&& src[p] == '0'
    &&& (radix == 16 && (src[p + 1] == 'x' || src[p + 1] == 'X') || radix == 2 && (src[p + 1] == 'b'
        || src[p + 1] == 'B'))
}

/// A fractional part starts at `e`: a `.` that does not begin `..`.
pub open spec fn fraction_at(src: Seq<char>, e: int) -> bool {
    e < src.len() && src[e] == '.' && !(e + 1 < src.len() && src[e + 1] == '.')
}

/// An exponent starts at `e`.
pub open spec fn exponent_at(src: Seq<char>, e: int) -> bool {
    e < src.len() && (src[e] == 'e' || src[e] == 'E')
}

/// End of the integer part of a decimal literal whose first digit is at `p`.
pub open spec fn int_part_end(src: Seq<char>, p: int) -> int {
    digit_run(src, p + 1, 10)
}

/// End of the fractional part (the integer part's end when there is none).
pub open spec fn fraction_end(src: Seq<char>, p: int) -> int {
    let e1 = int_part_end(src, p);
    if fraction_at(src, e1) {
        digit_run(src, e1 + 1, 10)
    } else {
        e1
    }
}

/// The decimal literal at `p` has a fractional part or an exponent.
pub open spec fn decimal_is_float(src: Seq<char>, p: int) -> bool {
    fraction_at(src, int_part_end(src, p)) || exponent_at(src, fraction_end(src, p))
}

/// Where the longest number literal that starts with the digit at `p` ends:
/// `0x`/`0b` and their digits; or digits, an optional `.digits`, and an
/// optional exponent `e`/`E`, optional sign, digits.
pub open spec fn number_end(src: Seq<char>, p: int) -> int {
    if radix_prefix_at(src, p, 16) {
        digit_run(src, p + 2, 16)
    } else if radix_prefix_at(src, p, 2) {
        digit_run(src, p + 2, 2)
    } else {
        let e2 = fraction_end(src, p);
        if exponent_at(src, e2) {
            let s = if e2 + 1 < src.len() && (src[e2 + 1] == '+' || src[e2 + 1] == '-') {
                e2 + 2
            } else {
                e2 + 1
            };
            digit_run(src, s, 10)
        } else {
            e2
        }
    }
}

/// A string whose opening quote `q` is at `p` is a triple-quoted (multiline)
/// string: two more `q` follow it.
pub open spec fn opens_multiline(src: Seq<char>, p: int) -> bool {
    p + 2 < src.len() && src[p + 1] == src[p] && src[p + 2] == src[p]
}

/// Where the string body that starts at `i` is closed: the first quote `q`
/// (the first three in a row for a multiline string) that no backslash
/// escapes (in a raw string nothing is escaped); `None` when the source ends first.
pub open spec fn closing_quote(src: Seq<char>, i: int, q: char, multi: bool, raw: bool) -> Option<int>
    decreases src.len() - i,
{
    if i < 0 || i >= src.len() {
        None
    } else if src[i] == '\\' && !raw {
        if i + 1 >= src.len() {
            None
        } else {
            closing_quote(src, i + 2, q, multi, raw)
        }
    } else if src[i] == q && (!multi || (i + 2 < src.len() && src[i + 1] == q && src[i + 2] == q)) {
        Some(i)
    } else {
        closing_quote(src, i + 1, q, multi, raw)
    }
}

/// A character that continues an identifier: alphanumeric or `_`.
pub open spec fn is_identifier_char(c: char) -> bool {
    crate::text::unicode_alphanumeric(c) || c == '_'
}

/// Where the run of identifier characters that starts at `a` ends.
pub open spec fn ident_run(src: Seq<char>, a: int) -> int
    decreases src.len() - a,
{
    if 0 <= a < src.len() && is_identifier_char(src[a]) {
        ident_run(src, a + 1)
    } else {
        a
    }
}

/// An ASCII letter, digit or `_`: a character of an annotation's name.
pub open spec fn is_ascii_word_char(c: char) -> bool {
    crate::text::is_ascii_letter(c) || crate::text::is_digit(c) || c == '_'
}

/// Where the run of ASCII word characters that starts at `a` ends.
pub open spec fn ascii_word_run(src: Seq<char>, a: int) -> int
    decreases src.len() - a,
{
    if 0 <= a < src.len() && is_ascii_word_char(src[a]) {
        ascii_word_run(src, a + 1)
    } else {
        a
    }
}

/// `"` or `'`.
pub open spec fn is_quote_char(c: char) -> bool {
    c == '\u{22}' || c == '\''
}

/// The string literal token `t` read from `a` with its opening quote at `qp`:
/// it ends at its closing quote with the text between as its value, or, when
/// no closing quote follows, it is an `unterminated string` error running to
/// the end of the source.
pub open spec fn string_read_at(src: Seq<char>, a: int, qp: int, t: Token) -> bool {
    let multi = opens_multiline(src, qp);
    let d: int = if multi { 3 } else { 1 };
    let raw = qp == a + 1 && (src[a] == 'r' || src[a] == 'R');
    match closing_quote(src, qp + d, src[qp], multi, raw) {
        Some(c) => t.kind matches TokenKind::String(info) && info.value@ == src.subrange(qp + d, c)
            && info.is_multiline == multi && a + t.text@.len() == c + d,
        None => t.kind matches TokenKind::Error(m) && m@ == "unterminated string"@ && a + t.text@.len() == src.len(),
    }
}

/// The kind of the number token `t` whose literal starts at `a`: a float
/// (fraction or exponent) whose digits have float syntax, an integer whose
/// value fits in `i64`, or else an error naming the literal.
pub open spec fn number_kind_ok(src: Seq<char>, a: int, t: Token) -> bool {
    let hex = radix_prefix_at(src, a, 16);
    let bin = radix_prefix_at(src, a, 2);
    let fl = !hex && !bin && decimal_is_float(src, a);
    &&& (t.kind is Float <==> fl && float_syntax(strip_underscores(t.text@)))
    &&& (t.kind is Integer <==> !fl && (int_literal_value(t.text@) matches Some(v) && v <= i64::MAX))
    &&& (t.kind is Integer || t.kind is Float || t.kind is Error)
    &&& t.kind is Error ==> t.kind->Error_0@ == (if fl {
        "invalid float: "@
    } else if hex {
        "invalid hex: "@
    } else if bin {
        "invalid binary: "@
    } else {
        "invalid integer: "@
    }) + t.text@
}

/// The text token `t` read at position `a` is the one the first character
/// there calls for, read as far as it goes: a comment to the end of its
/// line, an annotation over its name, a string to its closing quote, a
/// number over the longest literal, an identifier or keyword over the
/// longest run of identifier characters, and otherwise the longest operator
/// (an error for a character that starts none).
pub open spec fn lexeme_at(src: Seq<char>, a: int, t: Token) -> bool {
    let c = src[a];
    let e = a + t.text@.len();
    if c == '#' {
        &&& e == line_end(src, a)
        &&& (t.kind is Comment || t.kind is DocComment)
        &&& (t.kind is DocComment <==> (a + 1 < src.len() && src[a + 1] == '#'))
    } else if c == '@' {
        t.kind is Annotation && e == ascii_word_run(src, a + 1)
    } else if c == '\n' {
        t.kind is Newline
    } else if is_quote_char(c) {
        string_read_at(src, a, a, t)
    } else if (c == 'r' || c == 'R' || c == '&' || c == '^') && a + 1 < src.len() && is_quote_char(src[a + 1]) {
        string_read_at(src, a, a + 1, t)
    } else if crate::text::is_digit(c) {
        e == number_end(src, a) && number_kind_ok(src, a, t)
    } else if crate::text::unicode_alphabetic(c) || c == '_' {
        &&& e == ident_run(src, a + 1)
        &&& keyword_kind(t.text@) is Some ==> t.kind == keyword_kind(t.text@)->0
        &&& keyword_kind(t.text@) is None ==> t.kind is Identifier
    } else if c == '$' {
        t.kind is Dollar
    } else {
        &&& !(c == '\\' && a + 1 < src.len() && src[a + 1] == '\n')
        &&& (t.kind is Error <==> !is_operator_start(c))
        &&& t.kind is Error ==> e == a + 1 && t.kind->Error_0@ == "unexpected character: "@ + seq![c]
        &&& !(t.kind is Error) && !(t.kind is UniqueNodeMarker) && !(t.kind is Percent) ==> longest_operator_at(
            src,
            a,
            t.kind,
        )
        &&& t.kind is UniqueNodeMarker || t.kind is Percent ==> t.text@ == seq!['%'] && (t.kind is UniqueNodeMarker
            <==> unique_node_marker_at(src, a)) && !text_at(src, a, seq!['%', '='])
    }
}

/// The two-character operators.
pub open spec fn two_char_operator(a: char, b: char) -> bool {
    ||| a == '*' && (b == '*' || b == '=')
    ||| (a == '=' || a == '!' || a == '+' || a == '/' || a == '%' || a == '^') && b == '='
    ||| a == '-' && (b == '=' || b == '>')
    ||| (a == '<' || a == '>') && (b == '=' || b == a)
    ||| (a == '&' || a == '|') && (b == '=' || b == a)
    ||| a == '.' && b == '.'
}

/// The three-character operators.
pub open spec fn three_char_operator(a: char, b: char, c: char) -> bool {
    ||| a == '*' && b == '*' && c == '='
    ||| (a == '<' || a == '>') && b == a && c == '='
    ||| a == '.' && b == '.' && c == '.'
}

/// Every operator text has one to three characters, and each of its prefixes
/// of two or three characters is itself an operator of that length.
pub proof fn lemma_operator_text_shapes()
    ensures
        forall|k: TokenKind| #[trigger] operator_text(k) is Some ==> {
            let y = operator_text(k)->0;
            &&& 1 <= y.len() <= 3
            &&& y.len() >= 2 ==> two_char_operator(y[0], y[1])
            &&& y.len() == 3 ==> three_char_operator(y[0], y[1], y[2])
        },
{
}

/// A `%` that starts a unique-node shorthand (`%Player`, `%"Node Name"`)
/// rather than the modulo operator: one followed by a letter, `_` or `"`.
pub open spec fn unique_node_marker_at(src: Seq<char>, p: int) -> bool {
    p + 1 < src.len() && (crate::text::is_ascii_letter(src[p + 1]) || src[p + 1] == '_' || src[p + 1] == '\u{22}')
}

pub open spec fn is_operator_start(ch: char) -> bool {
    ||| ch == '-' ||| ch == ',' ||| ch == ';' ||| ch == ':' ||| ch == '!' ||| ch == '.'
    ||| ch == '\u{28}' ||| ch == '\u{29}' ||| ch == '\u{5b}' ||| ch == '\u{5d}'
    ||| ch == '\u{7b}' ||| ch == '\u{7d}' ||| ch == '*' ||| ch == '/' ||| ch == '&'
    ||| ch == '%' ||| ch == '^' ||| ch == '+' ||| ch == '<' ||| ch == '=' ||| ch == '>'
    ||| ch == '|' ||| ch == '~'
}

fn is_known_operator_start(ch: char) -> (r: bool)
    ensures
        r == is_operator_start(ch),
{
    ch == '-' || ch == ',' || ch == ';' || ch == ':' || ch == '!' || ch == '.' || ch == '\u{28}'
        || ch == '\u{29}' || ch == '\u{5b}' || ch == '\u{5d}' || ch == '\u{7b}' || ch == '\u{7d}'
        || ch == '*' || ch == '/' || ch == '&' || ch == '%' || ch == '^' || ch == '+' || ch == '<'
        || ch == '=' || ch == '>' || ch == '|' || ch == '~'
}

/// The keyword kind of a word, if it is one.
fn keyword_of(t: &[char]) -> (r: Option<TokenKind>)
    ensures
        r == keyword_kind(t@),
{
    if chars_eq(t, &chars_of("class_name")) { return Some(TokenKind::ClassName); }
    if chars_eq(t, &chars_of("extends")) { return Some(TokenKind::Extends); }
    if chars_eq(t, &chars_of("class")) { return Some(TokenKind::Class); }
    if chars_eq(t, &chars_of("func")) { return Some(TokenKind::Func); }
    if chars_eq(t, &chars_of("var")) { return Some(TokenKind::Var); }
    if chars_eq(t, &chars_of("const")) { return Some(TokenKind::Const); }
    if chars_eq(t, &chars_of("signal")) { return Some(TokenKind::Signal); }
    if chars_eq(t, &chars_of("enum")) { return Some(TokenKind::Enum); }
    if chars_eq(t, &chars_of("static")) { return Some(TokenKind::Static); }
    if chars_eq(t, &chars_of("if")) { return Some(TokenKind::If); }
    if chars_eq(t, &chars_of("elif")) { return Some(TokenKind::Elif); }
    if chars_eq(t, &chars_of("else")) { return Some(TokenKind::Else); }
    if chars_eq(t, &chars_of("for")) { return Some(TokenKind::For); }
    if chars_eq(t, &chars_of("while")) { return Some(TokenKind::While); }
    if chars_eq(t, &chars_of("match")) { return Some(TokenKind::Match); }
    if chars_eq(t, &chars_of("when")) { return Some(TokenKind::When); }
    if chars_eq(t, &chars_of("break")) { return Some(TokenKind::Break); }
    if chars_eq(t, &chars_of("continue")) { return Some(TokenKind::Continue); }
    if chars_eq(t, &chars_of("pass")) { return Some(TokenKind::Pass); }
    if chars_eq(t, &chars_of("return")) { return Some(TokenKind::Return); }
    if chars_eq(t, &chars_of("as")) { return Some(TokenKind::As); }
    if chars_eq(t, &chars_of("is")) { return Some(TokenKind::Is); }
    if chars_eq(t, &chars_of("in")) { return Some(TokenKind::In); }
    if chars_eq(t, &chars_of("not")) { return Some(TokenKind::Not); }
    if chars_eq(t, &chars_of("and")) { return Some(TokenKind::And); }
    if chars_eq(t, &chars_of("or")) { return Some(TokenKind::Or); }
    if chars_eq(t, &chars_of("self")) { return Some(TokenKind::Self_); }
    if chars_eq(t, &chars_of("super")) { return Some(TokenKind::Super); }
    if chars_eq(t, &chars_of("await")) { return Some(TokenKind::Await); }
    if chars_eq(t, &chars_of("assert")) { return Some(TokenKind::Assert); }
    if chars_eq(t, &chars_of("breakpoint")) { return Some(TokenKind::Breakpoint); }
    if chars_eq(t, &chars_of("preload")) { return Some(TokenKind::Preload); }
    if chars_eq(t, &chars_of("void")) { return Some(TokenKind::Void); }
    if chars_eq(t, &chars_of("trait")) { return Some(TokenKind::Trait); }
    if chars_eq(t, &chars_of("true")) { return Some(TokenKind::Bool(true)); }
    if chars_eq(t, &chars_of("false")) { return Some(TokenKind::Bool(false)); }
    if chars_eq(t, &chars_of("null")) { return Some(TokenKind::Null); }
    None
}

/// The message text `prefix` followed by `rest`.
fn message(prefix: &str, rest: &[char]) -> (m: String)
    ensures
        m@ == prefix@ + rest@,
{
    let mut v = chars_of(prefix);
    push_chars(&mut v, rest);
    string_from_chars(&v)
}

impl Lexer {
    /// The token of kind `kind` whose text is the source from `start` to the current position.
    fn finish_token(
        &self,
        kind: TokenKind,
        start: usize,
        start_line: usize,
        start_col: usize,
        start_off: usize,
    ) -> (t: Token)
        requires
            self.wf(),
            start <= self.position,
            1 <= start_line <= self.line,
            start_off == utf8_len(self.chars@.take(start as int)),
            kind_matches_text(kind, self.chars@.subrange(start as int, self.position as int)),
        ensures
            token_ok(self.chars@, t),
            t.kind == kind,
            t.text@ == self.chars@.subrange(start as int, self.position as int),
            t.span.line == start_line,
            t.span.offset == start_off,
            t.span.column == start_col,
    {
        let text_chars = chars_range(self.chars.as_slice(), start, self.position);
        let text = string_from_chars(text_chars.as_slice());
        proof {
            self.lemma_line_bound();
            lemma_utf8_len_take_mono(self.chars@, start as int, self.position as int);
            lemma_utf8_len_split(self.chars@, start as int, self.position as int);
        }
        let span = Span::new(start_line, start_col, start_off, self.byte_offset - start_off);
        let t = Token::new(kind, span, text);
        assert(self.chars@.take(start as int) == self.chars@.take(start as int));
        t
    }

    /// A token with no text at the current position.
    fn empty_token(&self, kind: TokenKind) -> (t: Token)
        requires
            self.wf(),
            kind is Dedent || kind is Eof,
        ensures
            token_ok(self.chars@, t),
            t.kind == kind,
            t.span.line == self.line,
            t.span.column == self.column,
            t.span.offset == utf8_len(self.chars@.take(self.position as int)),
            t.span.length == 0,
    {
        let t = Token::new(kind, Span::new(self.line, self.column, self.byte_offset, 0), String::new());
        proof {
            self.lemma_line_bound();
        }
        assert(self.chars@.subrange(self.position as int, self.position as int) =~= t.text@);
        assert(self.chars@.take(self.position as int) == self.chars@.take(self.position as int));
        t
    }

    /// Skip tabs and spaces at the start of a line inside brackets.
    fn skip_line_whitespace(&mut self)
        requires
            old(self).wf(),
        ensures
            final(self).wf(),
            final(self).chars == old(self).chars,
            final(self).position >= old(self).position,
            final(self).line == old(self).line,
            final(self).indent_stack == old(self).indent_stack,
            final(self).pending_tokens == old(self).pending_tokens,
            final(self).at_line_start == old(self).at_line_start,
            final(self).paren_depth == old(self).paren_depth,
            forall|q: int| old(self).position <= q < final(self).position ==> (#[trigger] final(self).chars@[q] == ' ' || final(self).chars@[q] == '\t'),
            final(self).position == final(self).chars@.len() || !(final(self).chars@[final(self).position as int] == ' '
                || final(self).chars@[final(self).position as int] == '\t'),
            final(self).position == ws_end(old(self).chars@, old(self).position as int),
    {
        while !self.is_at_end() && (self.current_char() == ' ' || self.current_char() == '\t')
            invariant
                self.wf(),
                self.chars == old(self).chars,
                ws_end(self.chars@, self.position as int) == ws_end(self.chars@, old(self).position as int),
                forall|q: int| old(self).position <= q < self.position ==> (#[trigger] self.chars@[q] == ' ' || self.chars@[q] == '\t'),
                self.position >= old(self).position,
                self.line == old(self).line,
                self.indent_stack == old(self).indent_stack,
                self.pending_tokens == old(self).pending_tokens,
                self.at_line_start == old(self).at_line_start,
                self.paren_depth == old(self).paren_depth,
            decreases self.chars@.len() - self.position,
        {
            self.advance();
        }
    }

    /// Skip spaces, and tabs too when not at the start of a line (mid-line
    /// tabs are treated as spaces, in any mix with them).
    fn skip_spaces(&mut self)
        requires
            old(self).wf(),
        ensures
            final(self).wf(),
            final(self).chars == old(self).chars,
            final(self).position >= old(self).position,
            final(self).line == old(self).line,
            final(self).indent_stack == old(self).indent_stack,
            final(self).pending_tokens == old(self).pending_tokens,
            final(self).at_line_start == old(self).at_line_start,
            final(self).paren_depth == old(self).paren_depth,
            forall|q: int| old(self).position <= q < final(self).position ==> (#[trigger] final(self).chars@[q] == ' ' || final(self).chars@[q] == '\t'),
            final(self).position == if old(self).at_line_start {
                skip_run(old(self).chars@, old(self).position as int, ' ')
            } else {
                ws_end(old(self).chars@, old(self).position as int)
            },
    {
        while self.current_is(' ') || (self.current_is('\t') && !self.at_line_start)
            invariant
                self.wf(),
                self.chars == old(self).chars,
                forall|q: int| old(self).position <= q < self.position ==> (#[trigger] self.chars@[q] == ' ' || self.chars@[q] == '\t'),
                old(self).at_line_start ==> skip_run(self.chars@, self.position as int, ' ') == skip_run(self.chars@, old(self).position as int, ' '),
                !old(self).at_line_start ==> ws_end(self.chars@, self.position as int) == ws_end(self.chars@, old(self).position as int),
                self.position >= old(self).position,
                self.line == old(self).line,
                self.indent_stack == old(self).indent_stack,
                self.pending_tokens == old(self).pending_tokens,
                self.at_line_start == old(self).at_line_start,
                self.paren_depth == old(self).paren_depth,
            decreases self.chars@.len() - self.position,
        {
            self.advance();
        }
    }
}


impl Lexer {
    /// `new` differs from `old` only in how far it has read and where it is.
    pub closed spec fn keeps_blocks(&self, old: &Lexer) -> bool {
        &&& self.chars == old.chars
        &&& self.indent_stack == old.indent_stack
        &&& self.pending_tokens == old.pending_tokens
        &&& self.at_line_start == old.at_line_start
        &&& self.position > old.position
    }

    fn read_newline(&mut self) -> (r: Option<Token>)
        requires
            old(self).wf(),
            old(self).position < old(self).chars@.len(),
            old(self).chars@[old(self).position as int] == '\n',
        ensures
            final(self).wf(),
            final(self).chars == old(self).chars,
            final(self).indent_stack == old(self).indent_stack,
            final(self).pending_tokens == old(self).pending_tokens,
            final(self).paren_depth == old(self).paren_depth,
            final(self).at_line_start,
            final(self).position == old(self).position + 1,
            r is None <==> old(self).paren_depth > 0,
            r matches Some(t) ==> token_ok(final(self).chars@, t) && t.kind is Newline,
            r matches Some(t) ==> t.text@ == final(self).chars@.subrange(old(self).position as int, final(self).position as int)
                && t.span.offset == utf8_len(old(self).chars@.take(old(self).position as int))
                && t.span.column == column_at(old(self).chars@, old(self).position as int)
                && t.span.line == old(self).line,
    {
        let start = self.position;
        let sl = self.line;
        let sc = self.column;
        let so = self.byte_offset;
        self.advance_newline();
        self.at_line_start = true;
        if self.paren_depth > 0 {
            return None;
        }
        assert(self.chars@.subrange(start as int, self.position as int) =~= seq!['\n']);
        Some(self.finish_token(TokenKind::Newline, start, sl, sc, so))
    }

    fn read_comment(&mut self) -> (t: Token)
        requires
            old(self).wf(),
            old(self).position < old(self).chars@.len(),
            old(self).chars@[old(self).position as int] == '#',
        ensures
            final(self).wf(),
            final(self).keeps_blocks(old(self)),
            final(self).paren_depth == old(self).paren_depth,
            final(self).line == old(self).line,
            token_ok(final(self).chars@, t),
            is_text_token(t.kind),
            t.text@ == final(self).chars@.subrange(old(self).position as int, final(self).position as int),
            t.span.offset == utf8_len(old(self).chars@.take(old(self).position as int)),
            t.span.column == column_at(old(self).chars@, old(self).position as int),
            t.span.line == old(self).line,
            final(self).position == line_end(old(self).chars@, old(self).position as int),
            t.kind is Comment || t.kind is DocComment,
            t.kind is DocComment <==> (old(self).position + 1 < old(self).chars@.len() && old(self).chars@[old(self).position + 1] == '#'),
    {
        let start = self.position;
        let sc = self.column;
        let so = self.byte_offset;
        assert(line_end(self.chars@, start as int) == line_end(self.chars@, start + 1));
        self.advance();
        let doc = self.current_is('#');
        if doc {
            assert(line_end(self.chars@, start + 1) == line_end(self.chars@, start + 2));
            self.advance();
        }
        let content_start = self.position;
        while !self.is_at_end() && self.current_char() != '\n'
            invariant
                self.wf(),
                self.chars == old(self).chars,
                self.indent_stack == old(self).indent_stack,
                self.pending_tokens == old(self).pending_tokens,
                self.at_line_start == old(self).at_line_start,
                self.paren_depth == old(self).paren_depth,
                self.line == old(self).line,
                content_start <= self.position,
                forall|k: int| content_start <= k < self.position ==> self.chars@[k] != '\n',
                line_end(self.chars@, self.position as int) == line_end(self.chars@, old(self).position as int),
            decreases self.chars@.len() - self.position,
        {
            self.advance();
        }
        let content = string_from_chars(
            chars_range(self.chars.as_slice(), content_start, self.position).as_slice(),
        );
        let ghost text = self.chars@.subrange(start as int, self.position as int);
        proof {
            assert(!content@.contains('\n')) by {
                assert forall|k: int| 0 <= k < content@.len() implies content@[k] != '\n' by {
                    assert(content@[k] == self.chars@[content_start + k]);
                }
            }
        }
        if doc {
            assert(text =~= seq!['#', '#'] + content@);
            self.finish_token(TokenKind::DocComment(content), start, self.line, sc, so)
        } else {
            assert(text =~= seq!['#'] + content@);
            self.finish_token(TokenKind::Comment(content), start, self.line, sc, so)
        }
    }

    fn read_annotation(&mut self) -> (t: Token)
        requires
            old(self).wf(),
            old(self).position < old(self).chars@.len(),
            old(self).chars@[old(self).position as int] == '@',
        ensures
            final(self).wf(),
            final(self).keeps_blocks(old(self)),
            final(self).paren_depth == old(self).paren_depth,
            final(self).line == old(self).line,
            token_ok(final(self).chars@, t),
            is_text_token(t.kind),
            t.text@ == final(self).chars@.subrange(old(self).position as int, final(self).position as int),
            t.span.offset == utf8_len(old(self).chars@.take(old(self).position as int)),
            t.span.column == column_at(old(self).chars@, old(self).position as int),
            t.span.line == old(self).line,
            t.kind is Annotation,
            final(self).position == ascii_word_run(old(self).chars@, old(self).position + 1),
    {
        let start = self.position;
        let sc = self.column;
        let so = self.byte_offset;
        self.advance();
        while !self.is_at_end() && (ascii_alphanumeric(self.current_char())
            || self.current_char() == '_')
            invariant
                self.wf(),
                self.chars == old(self).chars,
                self.indent_stack == old(self).indent_stack,
                self.pending_tokens == old(self).pending_tokens,
                self.at_line_start == old(self).at_line_start,
                self.paren_depth == old(self).paren_depth,
                self.line == old(self).line,
                start < self.position,
                start == old(self).position,
                ascii_word_run(self.chars@, self.position as int) == ascii_word_run(self.chars@, start + 1),
            decreases self.chars@.len() - self.position,
        {
            self.advance();
        }
        let name = string_from_chars(
            chars_range(self.chars.as_slice(), start + 1, self.position).as_slice(),
        );
        assert(self.chars@.subrange(start as int, self.position as int) =~= seq!['@'] + name@);
        self.finish_token(TokenKind::Annotation(name), start, self.line, sc, so)
    }

    fn read_identifier(&mut self) -> (t: Token)
        requires
            old(self).wf(),
            old(self).position < old(self).chars@.len(),
            old(self).chars@[old(self).position as int] != '\n',
        ensures
            final(self).wf(),
            final(self).keeps_blocks(old(self)),
            final(self).paren_depth == old(self).paren_depth,
            final(self).line == old(self).line,
            token_ok(final(self).chars@, t),
            is_text_token(t.kind),
            t.text@ == final(self).chars@.subrange(old(self).position as int, final(self).position as int),
            t.span.offset == utf8_len(old(self).chars@.take(old(self).position as int)),
            t.span.column == column_at(old(self).chars@, old(self).position as int),
            t.span.line == old(self).line,
            forall|q: int|
                old(self).position < q < final(self).position ==> is_identifier_char(#[trigger] final(self).chars@[q]),
            final(self).position == final(self).chars@.len() || !is_identifier_char(
                final(self).chars@[final(self).position as int],
            ),
            keyword_kind(t.text@) is Some ==> t.kind == keyword_kind(t.text@)->0,
            keyword_kind(t.text@) is None ==> t.kind is Identifier,
            final(self).position == ident_run(old(self).chars@, old(self).position + 1),
    {
        let start = self.position;
        let sc = self.column;
        let so = self.byte_offset;
        // The first character is a letter or `_`, which the loop below would accept too.
        self.advance();
        while !self.is_at_end() && (char_is_alphanumeric(self.current_char())
            || self.current_char() == '_')
            invariant
                self.wf(),
                self.chars == old(self).chars,
                self.indent_stack == old(self).indent_stack,
                self.pending_tokens == old(self).pending_tokens,
                self.at_line_start == old(self).at_line_start,
                self.paren_depth == old(self).paren_depth,
                self.line == old(self).line,
                start < self.position,
                start == old(self).position,
                forall|q: int| start < q < self.position ==> is_identifier_char(#[trigger] self.chars@[q]),
                ident_run(self.chars@, self.position as int) == ident_run(self.chars@, start + 1),
            decreases self.chars@.len() - self.position,
        {
            self.advance();
        }
        let text = chars_range(self.chars.as_slice(), start, self.position);
        let kind = match keyword_of(text.as_slice()) {
            Some(k) => k,
            None => TokenKind::Identifier(string_from_chars(text.as_slice())),
        };
        proof {
            if keyword_kind(text@) is Some {
                let k = keyword_kind(text@)->0;
                assert(kind == k);
                assert(kind_matches_text(k, text@)) by {
                    assert(keyword_kind(text@) == Some(k));
                }
            }
        }
        self.finish_token(kind, start, self.line, sc, so)
    }

    fn read_single_char(&mut self, kind: TokenKind) -> (t: Token)
        requires
            old(self).wf(),
            old(self).position < old(self).chars@.len(),
            old(self).chars@[old(self).position as int] != '\n',
            operator_text(kind) == Some(seq![old(self).chars@[old(self).position as int]]),
        ensures
            final(self).wf(),
            final(self).keeps_blocks(old(self)),
            final(self).paren_depth == old(self).paren_depth,
            final(self).line == old(self).line,
            token_ok(final(self).chars@, t),
            is_text_token(t.kind),
            t.text@ == final(self).chars@.subrange(old(self).position as int, final(self).position as int),
            t.span.offset == utf8_len(old(self).chars@.take(old(self).position as int)),
            t.span.column == column_at(old(self).chars@, old(self).position as int),
            t.span.line == old(self).line,
            t.kind == kind,
    {
        let start = self.position;
        let sc = self.column;
        let so = self.byte_offset;
        self.advance();
        assert(self.chars@.subrange(start as int, self.position as int) =~= seq![self.chars@[start as int]]);
        self.finish_token(kind, start, self.line, sc, so)
    }
}


impl Lexer {
    /// Step past characters while they satisfy `digit or _` for the given radix.
    fn skip_digits(&mut self, radix: u64)
        requires
            old(self).wf(),
            radix == 2 || radix == 10 || radix == 16,
        ensures
            final(self).wf(),
            final(self).chars == old(self).chars,
            final(self).indent_stack == old(self).indent_stack,
            final(self).pending_tokens == old(self).pending_tokens,
            final(self).at_line_start == old(self).at_line_start,
            final(self).paren_depth == old(self).paren_depth,
            final(self).line == old(self).line,
            final(self).position >= old(self).position,
            forall|q: int| old(self).position <= q < final(self).position ==> digit_of_radix(#[trigger] final(self).chars@[q], radix),
            final(self).position == final(self).chars@.len() || !digit_of_radix(final(self).chars@[final(self).position as int], radix),
            final(self).position == digit_run(old(self).chars@, old(self).position as int, radix),
    {
        while !self.is_at_end() && (self.current_char() == '_' || (radix == 10 && ascii_digit(
            self.current_char(),
        )) || (radix == 16 && ascii_hex_digit(self.current_char())) || (radix == 2 && (
        self.current_char() == '0' || self.current_char() == '1')))
            invariant
                self.wf(),
                self.chars == old(self).chars,
                self.indent_stack == old(self).indent_stack,
                self.pending_tokens == old(self).pending_tokens,
                self.at_line_start == old(self).at_line_start,
                self.paren_depth == old(self).paren_depth,
                self.line == old(self).line,
                self.position >= old(self).position,
                forall|q: int| old(self).position <= q < self.position ==> digit_of_radix(#[trigger] self.chars@[q], radix),
                digit_run(self.chars@, self.position as int, radix) == digit_run(self.chars@, old(self).position as int, radix),
            decreases self.chars@.len() - self.position,
        {
            self.advance();
        }
    }

    /// Read the digits of a hex or binary literal, whose `0x`/`0b` prefix starts at `start`.
    fn read_radix_number(&mut self, start: usize, sc: usize, so: usize, radix: u64) -> (t: Token)
        requires
            old(self).wf(),
            radix == 2 || radix == 16,
            start + 2 == old(self).position,
            so == utf8_len(old(self).chars@.take(start as int)),
            sc == column_at(old(self).chars@, start as int),
            old(self).chars@[start as int] == '0',
            radix == 16 ==> (old(self).chars@[start + 1] == 'x' || old(self).chars@[start + 1]
                == 'X'),
            radix == 2 ==> (old(self).chars@[start + 1] == 'b' || old(self).chars@[start + 1]
                == 'B'),
        ensures
            final(self).wf(),
            final(self).chars == old(self).chars,
            final(self).indent_stack == old(self).indent_stack,
            final(self).pending_tokens == old(self).pending_tokens,
            final(self).at_line_start == old(self).at_line_start,
            final(self).paren_depth == old(self).paren_depth,
            final(self).line == old(self).line,
            final(self).position >= old(self).position,
            token_ok(final(self).chars@, t),
            is_text_token(t.kind),
            t.text@ == final(self).chars@.subrange(start as int, final(self).position as int),
            t.span.offset == so,
            t.span.column == sc,
            t.span.line == old(self).line,
            final(self).position == digit_run(old(self).chars@, start + 2, radix),
            t.kind is Integer <==> (int_literal_value(t.text@) matches Some(v) && v <= i64::MAX),
            t.kind is Integer || t.kind is Error,
            t.kind is Error ==> t.kind->Error_0@ == (if radix == 16 {
                "invalid hex: "@
            } else {
                "invalid binary: "@
            }) + t.text@,
    {
        self.skip_digits(radix);
        let text = chars_range(self.chars.as_slice(), start, self.position);
        let digits = strip_underscores_exec(&chars_range(self.chars.as_slice(), start + 2, self.position));
        assert(text@.subrange(2, text@.len() as int) =~= self.chars@.subrange(start + 2, self.position as int));
        proof {
            lemma_digits_nonneg(digits@, radix as int);
        }
        match parse_digits(digits.as_slice(), radix) {
            Some(v) => self.finish_token(TokenKind::Integer(v), start, self.line, sc, so),
            None => {
                let msg = if radix == 16 {
                    message("invalid hex: ", text.as_slice())
                } else {
                    message("invalid binary: ", text.as_slice())
                };
                self.finish_token(TokenKind::Error(msg), start, self.line, sc, so)
            },
        }
    }

    #[verifier::rlimit(60)]
    #[verifier::spinoff_prover]
    fn read_number(&mut self) -> (t: Token)
        requires
            old(self).wf(),
            old(self).position < old(self).chars@.len(),
            crate::text::is_digit(old(self).chars@[old(self).position as int]),
        ensures
            final(self).wf(),
            final(self).keeps_blocks(old(self)),
            final(self).paren_depth == old(self).paren_depth,
            final(self).line == old(self).line,
            token_ok(final(self).chars@, t),
            is_text_token(t.kind),
            t.text@ == final(self).chars@.subrange(old(self).position as int, final(self).position as int),
            t.span.offset == utf8_len(old(self).chars@.take(old(self).position as int)),
            t.span.column == column_at(old(self).chars@, old(self).position as int),
            t.span.line == old(self).line,
            final(self).position == number_end(old(self).chars@, old(self).position as int),
            number_kind_ok(old(self).chars@, old(self).position as int, t),
            t.kind is Float <==> (!radix_prefix_at(old(self).chars@, old(self).position as int, 16)
                && !radix_prefix_at(old(self).chars@, old(self).position as int, 2) && decimal_is_float(
                old(self).chars@,
                old(self).position as int,
            ) && float_syntax(strip_underscores(t.text@))),
            t.kind is Integer <==> (!decimal_is_float(old(self).chars@, old(self).position as int)
                || radix_prefix_at(old(self).chars@, old(self).position as int, 16) || radix_prefix_at(
                old(self).chars@,
                old(self).position as int,
                2,
            )) && (int_literal_value(t.text@) matches Some(v) && v <= i64::MAX),
    {
        let start = self.position;
        let sc = self.column;
        let so = self.byte_offset;
        let first = self.current_char();
        self.advance();
        if first == '0' && !self.is_at_end() {
            let next = self.current_char();
            if next == 'x' || next == 'X' {
                self.advance();
                return self.read_radix_number(start, sc, so, 16);
            }
            if next == 'b' || next == 'B' {
                self.advance();
                return self.read_radix_number(start, sc, so, 2);
            }
        }
        self.skip_digits(10);
        let mut is_float = false;
        if self.current_is('.') && self.peek_char() != Some('.') {
            is_float = true;
            self.advance();
            self.skip_digits(10);
        }
        if self.current_is('e') || self.current_is('E') {
            is_float = true;
            self.advance();
            if self.current_is('+') || self.current_is('-') {
                self.advance();
            }
            self.skip_digits(10);
        }
        let text = chars_range(self.chars.as_slice(), start, self.position);
        let clean = strip_underscores_exec(text.as_slice());
        assert(text@[0] == first);
        assert(!(text@.len() >= 2 && text@[0] == '0' && (text@[1] == 'x' || text@[1] == 'X'
            || text@[1] == 'b' || text@[1] == 'B')));
        if is_float {
            if float_syntax_ok(clean.as_slice()) {
                let lit = FloatLiteral { digits: string_from_chars(clean.as_slice()) };
                self.finish_token(TokenKind::Float(lit), start, self.line, sc, so)
            } else {
                let msg = message("invalid float: ", text.as_slice());
                self.finish_token(TokenKind::Error(msg), start, self.line, sc, so)
            }
        } else {
            proof {
                lemma_digits_nonneg(clean@, 10);
            }
            match parse_digits(clean.as_slice(), 10) {
                Some(v) => self.finish_token(TokenKind::Integer(v), start, self.line, sc, so),
                None => {
                    let msg = message("invalid integer: ", text.as_slice());
                    self.finish_token(TokenKind::Error(msg), start, self.line, sc, so)
                },
            }
        }
    }
}

/// Whether the digits of a float literal, separators removed, parse as an `f64`.
/// They read `digits [. digits] [e|E [+|-] digits]`; `str::parse::<f64>` takes
/// that form exactly when an exponent, if present, has at least one digit.
pub open spec fn float_syntax(clean: Seq<char>) -> bool {
    !(clean.contains('e') || clean.contains('E')) || (clean.len() > 0 && crate::text::is_digit(
        clean[clean.len() - 1],
    ))
}

fn float_syntax_ok(clean: &[char]) -> (r: bool)
    ensures
        r == float_syntax(clean@),
{
    let has_exp = crate::text::contains_char(clean, 'e') || crate::text::contains_char(clean, 'E');
    !has_exp || (clean.len() > 0 && ascii_digit(clean[clean.len() - 1]))
}


impl Lexer {
    /// Read a string literal whose opening quote is at the current position;
    /// `start` is where its prefix (if any) begins.
    fn read_string(&mut self, prefix: StringPrefix, start: usize, sc: usize, so: usize) -> (t: Token)
        requires
            old(self).wf(),
            old(self).position < old(self).chars@.len(),
            old(self).chars@[old(self).position as int] == '\u{22}' || old(self).chars@[old(
                self,
            ).position as int] == '\'',
            start == old(self).position - (if prefix is Bare { 0int } else { 1int }),
            start >= 0,
            prefix_matches(prefix, old(self).chars@.subrange(start as int, old(self).position as int)),
            so == utf8_len(old(self).chars@.take(start as int)),
            sc == column_at(old(self).chars@, start as int),
        ensures
            final(self).wf(),
            final(self).keeps_blocks(old(self)),
            final(self).paren_depth == old(self).paren_depth,
            token_ok(final(self).chars@, t),
            is_text_token(t.kind),
            t.text@ == final(self).chars@.subrange(start as int, final(self).position as int),
            t.span.offset == so,
            t.span.column == sc,
            t.span.line == old(self).line,
            ({
                let src = old(self).chars@;
                let p = old(self).position as int;
                let multi = opens_multiline(src, p);
                let body = p + if multi { 3int } else { 1int };
                match closing_quote(src, body, src[p], multi, prefix is Raw) {
                    Some(c) => t.kind matches TokenKind::String(info) && info.value@ == src.subrange(body, c)
                        && info.is_multiline == multi && final(self).position == c + (if multi { 3int } else { 1int }),
                    None => t.kind matches TokenKind::Error(m) && m@ == "unterminated string"@ && final(self).position
                        == src.len(),
                }
            }),
    {
        let start_line = self.line;
        let quote_pos = self.position;
        let quote = self.current_char();
        let quote_style = if quote == '\'' {
            QuoteStyle::Single
        } else {
            QuoteStyle::Double
        };
        assert(quote_char(quote_style) == quote);
        self.advance();
        let is_multiline = self.current_is(quote) && self.peek_char() == Some(quote);
        if is_multiline {
            self.advance();
            self.advance();
        }
        let d: usize = if is_multiline { 3 } else { 1 };
        let body_start = self.position;
        assert(forall|k: int| quote_pos <= k < body_start ==> self.chars@[k] == quote);
        assert(body_start == quote_pos + d);
        let mut value: Vec<char> = Vec::new();
        let mut closed = false;
        let mut close_pos: usize = self.position;
        while !closed && !self.is_at_end()
            invariant
                self.wf(),
                self.chars == old(self).chars,
                self.indent_stack == old(self).indent_stack,
                self.pending_tokens == old(self).pending_tokens,
                self.at_line_start == old(self).at_line_start,
                self.paren_depth == old(self).paren_depth,
                start_line == old(self).line,
                start_line <= self.line,
                body_start <= self.position,
                d == (if is_multiline { 3usize } else { 1usize }),
                body_start == quote_pos + d,
                forall|k: int| quote_pos <= k < body_start ==> self.chars@[k] == quote,
                !closed ==> value@ == self.chars@.subrange(body_start as int, self.position as int),
                closed ==> {
                    &&& body_start <= close_pos
                    &&& value@ == self.chars@.subrange(body_start as int, close_pos as int)
                    &&& close_pos + d == self.position
                    &&& forall|k: int| close_pos <= k < self.position ==> self.chars@[k] == quote
                },
                quote == self.chars@[quote_pos as int],
                quote == '\u{22}' || quote == '\'',
                is_multiline == opens_multiline(self.chars@, quote_pos as int),
                !closed ==> closing_quote(self.chars@, self.position as int, quote, is_multiline, prefix is Raw)
                    == closing_quote(self.chars@, body_start as int, quote, is_multiline, prefix is Raw),
                closed ==> closing_quote(self.chars@, body_start as int, quote, is_multiline, prefix is Raw) == Some(
                    close_pos as int,
                ),
            decreases self.chars@.len() - self.position, if closed { 0int } else { 1int },
        {
            let ch = self.current_char();
            if ch == '\n' {
                value.push(ch);
                self.advance_newline();
            } else if ch == '\\' && !matches!(prefix, StringPrefix::Raw) {
                value.push(ch);
                self.advance();
                if !self.is_at_end() {
                    let escaped = self.current_char();
                    value.push(escaped);
                    if escaped == '\n' {
                        self.advance_newline();
                    } else {
                        self.advance();
                    }
                }
            } else if ch == quote {
                if is_multiline {
                    if self.peek_char() == Some(quote) && self.peek_char_at(2) == Some(quote) {
                        close_pos = self.position;
                        self.advance();
                        self.advance();
                        self.advance();
                        closed = true;
                    } else {
                        value.push(ch);
                        self.advance();
                    }
                } else {
                    close_pos = self.position;
                    self.advance();
                    closed = true;
                }
            } else {
                value.push(ch);
                self.advance();
            }
        }
        let ghost text = self.chars@.subrange(start as int, self.position as int);
        if !closed {
            let msg = message("unterminated string", &[]);
            proof {
                reveal_strlit("unterminated string");
            }
            return self.finish_token(TokenKind::Error(msg), start, start_line, sc, so);
        }
        let info = StringInfo {
            value: string_from_chars(value.as_slice()),
            quote_style,
            prefix,
            is_multiline,
        };
        proof {
            let pl: int = if prefix is Bare { 0 } else { 1 };
            let vl = value@.len() as int;
            assert(quote_pos == start + pl);
            assert(close_pos == body_start + vl);
            assert(text.len() == close_pos + d - start);
            assert(text.subrange(0, pl) == self.chars@.subrange(start as int, quote_pos as int));
            assert(text.subrange(pl, pl + d) =~= repeat_char(quote, d as nat));
            assert(text.subrange(pl + d, pl + d + vl) =~= value@);
            assert(text.subrange(pl + d + vl, text.len() as int) =~= repeat_char(quote, d as nat));
            assert(string_text_matches(info, text));
        }
        self.finish_token(TokenKind::String(info), start, start_line, sc, so)
    }
}


impl Lexer {
    /// The operator token of kind `kind` read from `start` to the current position.
    fn op(&self, kind: TokenKind, start: usize, sc: usize, so: usize) -> (t: Token)
        requires
            is_text_token(kind),
            self.wf(),
            start < self.position,
            so == utf8_len(self.chars@.take(start as int)),
            sc == column_at(self.chars@, start as int),
            operator_text(kind) matches Some(w) && w.len() == self.position - start && forall|i: int|
                0 <= i < w.len() ==> self.chars@[start + i] == w[i],
        ensures
            token_ok(self.chars@, t),
            t.kind == kind,
            t.text@ == self.chars@.subrange(start as int, self.position as int),
            t.span.offset == so,
            t.span.column == sc,
            t.span.line == self.line,
    {
        let ghost w = operator_text(kind)->0;
        assert(self.chars@.subrange(start as int, self.position as int) =~= w);
        self.finish_token(kind, start, self.line, sc, so)
    }

    /// Read an operator or delimiter; an unexpected character becomes an error token.
    #[verifier::rlimit(100)]
    #[verifier::spinoff_prover]
    fn read_operator(&mut self) -> (t: Token)
        requires
            old(self).wf(),
            old(self).position < old(self).chars@.len(),
            old(self).chars@[old(self).position as int] != '\n',
        ensures
            final(self).wf(),
            final(self).keeps_blocks(old(self)),
            final(self).line == old(self).line,
            final(self).paren_depth == depth_after(
                old(self).paren_depth as int,
                old(self).chars@[old(self).position as int],
            ),
            token_ok(final(self).chars@, t),
            is_text_token(t.kind),
            t.text@ == final(self).chars@.subrange(old(self).position as int, final(self).position as int),
            t.span.offset == utf8_len(old(self).chars@.take(old(self).position as int)),
            t.span.column == column_at(old(self).chars@, old(self).position as int),
            t.span.line == old(self).line,
            t.kind is Error <==> !is_operator_start(old(self).chars@[old(self).position as int]),
            t.kind is Error ==> t.text@.len() == 1 && t.kind->Error_0@ == "unexpected character: "@ + seq![
                old(self).chars@[old(self).position as int],
            ],
            !(t.kind is Error) && !(t.kind is UniqueNodeMarker) && !(t.kind is Percent) ==> longest_operator_at(
                old(self).chars@,
                old(self).position as int,
                t.kind,
            ),
            t.kind is UniqueNodeMarker || t.kind is Percent ==> t.text@ == seq!['%'] && (t.kind is UniqueNodeMarker
                <==> unique_node_marker_at(old(self).chars@, old(self).position as int)) && !text_at(
                old(self).chars@,
                old(self).position as int,
                seq!['%', '='],
            ),
    {
        let start = self.position;
        let sc = self.column;
        let so = self.byte_offset;
        let ch = self.current_char();
        proof {
            lemma_operator_text_shapes();
        }
        self.advance();
        if !is_known_operator_start(ch) {
            let msg = message("unexpected character: ", &[ch]);
            assert(self.chars@.subrange(start as int, self.position as int).len() == 1);
            return self.finish_token(TokenKind::Error(msg), start, self.line, sc, so);
        }
        if ch == '\u{28}' {
            self.paren_depth = self.paren_depth + 1;
            self.op(TokenKind::LeftParen, start, sc, so)
        } else if ch == '\u{29}' {
            if self.paren_depth > 0 {
                self.paren_depth = self.paren_depth - 1;
            }
            self.op(TokenKind::RightParen, start, sc, so)
        } else if ch == '\u{5b}' {
            self.paren_depth = self.paren_depth + 1;
            self.op(TokenKind::LeftBracket, start, sc, so)
        } else if ch == '\u{5d}' {
            if self.paren_depth > 0 {
                self.paren_depth = self.paren_depth - 1;
            }
            self.op(TokenKind::RightBracket, start, sc, so)
        } else if ch == '\u{7b}' {
            self.paren_depth = self.paren_depth + 1;
            self.op(TokenKind::LeftBrace, start, sc, so)
        } else if ch == '\u{7d}' {
            if self.paren_depth > 0 {
                self.paren_depth = self.paren_depth - 1;
            }
            self.op(TokenKind::RightBrace, start, sc, so)
        } else if ch == ',' {
            self.op(TokenKind::Comma, start, sc, so)
        } else if ch == ';' {
            self.op(TokenKind::Semicolon, start, sc, so)
        } else if ch == ':' {
            self.op(TokenKind::Colon, start, sc, so)
        } else if ch == '~' {
            self.op(TokenKind::Tilde, start, sc, so)
        } else if ch == '+' {
            if self.current_is('=') {
                self.advance();
                self.op(TokenKind::PlusAssign, start, sc, so)
            } else {
                self.op(TokenKind::Plus, start, sc, so)
            }
        } else if ch == '-' {
            if self.current_is('=') {
                self.advance();
                self.op(TokenKind::MinusAssign, start, sc, so)
            } else if self.current_is('>') {
                self.advance();
                self.op(TokenKind::Arrow, start, sc, so)
            } else {
                self.op(TokenKind::Minus, start, sc, so)
            }
        } else if ch == '*' {
            if self.current_is('*') {
                self.advance();
                if self.current_is('=') {
                    self.advance();
                    self.op(TokenKind::StarStarAssign, start, sc, so)
                } else {
                    self.op(TokenKind::StarStar, start, sc, so)
                }
            } else if self.current_is('=') {
                self.advance();
                self.op(TokenKind::StarAssign, start, sc, so)
            } else {
                self.op(TokenKind::Star, start, sc, so)
            }
        } else if ch == '/' {
            if self.current_is('=') {
                self.advance();
                self.op(TokenKind::SlashAssign, start, sc, so)
            } else {
                self.op(TokenKind::Slash, start, sc, so)
            }
        } else if ch == '%' {
            if self.current_is('=') {
                self.advance();
                self.op(TokenKind::PercentAssign, start, sc, so)
            } else if !self.is_at_end() && (crate::text::ascii_letter(self.current_char())
                || self.current_char() == '_' || self.current_char() == '\u{22}') {
                // A unique-node shorthand such as `%Player` or `%"Node Name"`.
                self.op(TokenKind::UniqueNodeMarker, start, sc, so)
            } else {
                self.op(TokenKind::Percent, start, sc, so)
            }
        } else if ch == '=' {
            if self.current_is('=') {
                self.advance();
                self.op(TokenKind::Equal, start, sc, so)
            } else {
                self.op(TokenKind::Assign, start, sc, so)
            }
        } else if ch == '!' {
            if self.current_is('=') {
                self.advance();
                self.op(TokenKind::NotEqual, start, sc, so)
            } else {
                self.op(TokenKind::Bang, start, sc, so)
            }
        } else if ch == '<' {
            if self.current_is('=') {
                self.advance();
                self.op(TokenKind::LessEqual, start, sc, so)
            } else if self.current_is('<') {
                self.advance();
                if self.current_is('=') {
                    self.advance();
                    self.op(TokenKind::LessLessAssign, start, sc, so)
                } else {
                    self.op(TokenKind::LessLess, start, sc, so)
                }
            } else {
                self.op(TokenKind::Less, start, sc, so)
            }
        } else if ch == '>' {
            if self.current_is('=') {
                self.advance();
                self.op(TokenKind::GreaterEqual, start, sc, so)
            } else if self.current_is('>') {
                self.advance();
                if self.current_is('=') {
                    self.advance();
                    self.op(TokenKind::GreaterGreaterAssign, start, sc, so)
                } else {
                    self.op(TokenKind::GreaterGreater, start, sc, so)
                }
            } else {
                self.op(TokenKind::Greater, start, sc, so)
            }
        } else if ch == '&' {
            if self.current_is('&') {
                self.advance();
                self.op(TokenKind::AmpersandAmpersand, start, sc, so)
            } else if self.current_is('=') {
                self.advance();
                self.op(TokenKind::AmpersandAssign, start, sc, so)
            } else {
                self.op(TokenKind::Ampersand, start, sc, so)
            }
        } else if ch == '|' {
            if self.current_is('|') {
                self.advance();
                self.op(TokenKind::PipePipe, start, sc, so)
            } else if self.current_is('=') {
                self.advance();
                self.op(TokenKind::PipeAssign, start, sc, so)
            } else {
                self.op(TokenKind::Pipe, start, sc, so)
            }
        } else if ch == '^' {
            if self.current_is('=') {
                self.advance();
                self.op(TokenKind::CaretAssign, start, sc, so)
            } else {
                self.op(TokenKind::Caret, start, sc, so)
            }
        } else {
            // The remaining operator start is `.`.
            if self.current_is('.') {
                self.advance();
                if self.current_is('.') {
                    self.advance();
                    self.op(TokenKind::Ellipsis, start, sc, so)
                } else {
                    self.op(TokenKind::DotDot, start, sc, so)
                }
            } else {
                self.op(TokenKind::Dot, start, sc, so)
            }
        }
    }
}


impl Lexer {
    /// From the current position (on the `#` of a comment line), the indentation
    /// of the next line that is neither blank nor a comment, in visual columns
    /// (a tab advances to the next multiple of four); `None` at the end of the source.
    /// Reads only.
    fn peek_next_real_line_indent(&self) -> (r: Option<usize>)
        requires
            self.wf(),
        ensures
            r is Some <==> next_real_indent(self.chars@, line_end(self.chars@, self.position as int)) is Some,
            r matches Some(n) ==> next_real_indent(self.chars@, line_end(self.chars@, self.position as int)) == Some(
                n as nat,
            ),
            r matches Some(n) ==> n <= 4 * self.chars@.len(),
    {
        let len = self.chars.len();
        let ghost src = self.chars@;
        let mut i = self.position;
        while i < len && self.chars[i] != '\n'
            invariant
                self.wf(),
                src == self.chars@,
                len == self.chars@.len(),
                self.position <= i <= len,
                line_end(src, i as int) == line_end(src, self.position as int),
            decreases len - i,
        {
            i = i + 1;
        }
        let ghost target = next_real_indent(src, i as int);
        loop
            invariant
                self.wf(),
                src == self.chars@,
                len == self.chars@.len(),
                i <= len,
                next_real_indent(src, i as int) == target,
                target == next_real_indent(src, line_end(src, self.position as int)),
            decreases len - i,
        {
            let ghost i0 = i as int;
            if i >= len {
                return None;
            }
            i = i + 1;
            let line_start = i;
            let mut indent: usize = 0;
            proof {
                lemma_ws_end_bounds(src, line_start as int);
            }
            while i < len && (self.chars[i] == '\t' || self.chars[i] == ' ')
                invariant
                    self.wf(),
                    src == self.chars@,
                    len == self.chars@.len(),
                    line_start <= i <= len,
                    indent <= 4 * (i - line_start),
                    indent == indent_width(src, line_start as int, i as int),
                    ws_end(src, i as int) == ws_end(src, line_start as int),
                decreases len - i,
            {
                if self.chars[i] == '\t' {
                    indent = (indent / 4 + 1) * 4;
                } else {
                    indent = indent + 1;
                }
                i = i + 1;
            }
            if i >= len {
                return None;
            }
            if self.chars[i] == '#' {
                let ghost e = i as int;
                while i < len && self.chars[i] != '\n'
                    invariant
                        self.wf(),
                        src == self.chars@,
                        len == self.chars@.len(),
                        line_start <= i <= len,
                        line_end(src, i as int) == line_end(src, e),
                    decreases len - i,
                {
                    i = i + 1;
                }
            } else if self.chars[i] != '\n' {
                return Some(indent);
            }
        }
    }

    /// At the start of a line (outside brackets), measure its indentation and
    /// open or close blocks. Blank lines and comment lines at the current indent
    /// leave the blocks as they are.
    fn process_indentation(&mut self) -> (r: Option<Token>)
        requires
            old(self).wf(),
            old(self).pending_tokens@.len() == 0,
        ensures
            final(self).wf(),
            final(self).chars == old(self).chars,
            final(self).at_line_start == old(self).at_line_start,
            final(self).paren_depth == old(self).paren_depth,
            final(self).line == old(self).line,
            final(self).position >= old(self).position,
            r is None ==> final(self).open_indents() == old(self).open_indents(),
            r is None ==> final(self).measure() <= old(self).measure(),
            r is None ==> final(self).pending_tokens@.len() == 0,
            r is None ==> final(self).indent_stack@ == old(self).indent_stack@,
            match r {
                None => true,
                Some(t) => token_ok(final(self).chars@, t) && (t.kind is Indent || t.kind is Dedent)
                    && final(self).open_indents() == old(self).open_indents() + indent_delta(t.kind)
                    && final(self).measure() < old(self).measure(),
            },
            forall|q: int| old(self).position <= q < final(self).position ==> (#[trigger] final(self).chars@[q] == ' ' || final(self).chars@[q] == '\t'),
            final(self).position == ws_end(old(self).chars@, old(self).position as int),
            r is Some <==> indentation_changes(
                old(self).chars@,
                ws_end(old(self).chars@, old(self).position as int),
                line_indent(old(self).chars@, old(self).position as int),
                old(self).indent_stack@.last() as int,
                old(self).indent_stack@.len() as int,
            ),
            r matches Some(t) ==> (t.kind is Indent <==> line_indent(old(self).chars@, old(self).position as int)
                > old(self).indent_stack@.last()),
            r matches Some(t) ==> (t.kind is Indent ==> t.span.length == line_indent(old(self).chars@, old(self).position as int)),
            r matches Some(t) ==> t.kind is Dedent ==> {
                let closed = close_blocks(old(self).indent_stack@, line_indent(old(self).chars@, old(self).position as int));
                &&& final(self).indent_stack@ == closed
                &&& final(self).pending_tokens@.len() + 1 + closed.len() == old(self).indent_stack@.len()
            },
            (r matches Some(t) && t.kind is Indent) ==> final(self).pending_tokens@.len() == 0,
            (r matches Some(t) && t.kind is Indent) ==> final(self).indent_stack@ == old(self).indent_stack@.push(
                line_indent(old(self).chars@, old(self).position as int) as usize,
            ),
    {
        let start_pos = self.position;
        let start = self.byte_offset;
        let ghost src = self.chars@;
        let ghost top = self.indent_stack@.last() as int;
        proof {
            lemma_ws_end_bounds(src, start_pos as int);
        }
        proof {
            self.lemma_line_bound();
        }
        let mut indent_level: usize = 0;
        let mut scanning = true;
        while scanning && !self.is_at_end()
            invariant
                self.wf(),
                self.chars == old(self).chars,
                forall|q: int| old(self).position <= q < self.position ==> (#[trigger] self.chars@[q] == ' ' || self.chars@[q] == '\t'),
                self.indent_stack == old(self).indent_stack,
                self.pending_tokens == old(self).pending_tokens,
                self.at_line_start == old(self).at_line_start,
                self.paren_depth == old(self).paren_depth,
                self.line == old(self).line,
                start_pos == old(self).position,
                start_pos <= self.position,
                self.pending_tokens@.len() == 0,
                start == utf8_len(self.chars@.take(start_pos as int)),
                indent_level <= 4 * (self.position - start_pos),
                src == self.chars@,
                top == self.indent_stack@.last() as int,
                indent_level == indent_width(src, start_pos as int, self.position as int),
                ws_end(src, self.position as int) == ws_end(src, start_pos as int),
                !scanning ==> self.position < src.len() && src[self.position as int] != ' ' && src[self.position as int]
                    != '\t' && src[self.position as int] != '\n' && !comment_in_block(
                    src,
                    self.position as int,
                    indent_level as nat,
                    top,
                ),
            decreases self.chars@.len() - self.position, if scanning { 1int } else { 0int },
        {
            let c = self.current_char();
            if c == '\t' {
                indent_level = (indent_level / 4 + 1) * 4;
                self.advance();
            } else if c == ' ' {
                indent_level = indent_level + 1;
                self.advance();
            } else if c == '\n' {
                // A blank line.
                return None;
            } else if c == '#' {
                // A comment line: inside the current block when at its indent, or when
                // lower but followed by a deeper real line; otherwise a block boundary.
                let current_indent = self.indent_stack[self.indent_stack.len() - 1];
                if indent_level == current_indent {
                    return None;
                }
                if indent_level < current_indent {
                    match self.peek_next_real_line_indent() {
                        Some(next) => {
                            if next > indent_level {
                                return None;
                            }
                        },
                        None => {},
                    }
                }
                scanning = false;
            } else {
                scanning = false;
            }
        }
        if self.is_at_end() {
            return None;
        }
        let current_indent = self.indent_stack[self.indent_stack.len() - 1];
        if indent_level > current_indent {
            self.indent_stack.push(indent_level);
            let t = Token::new(TokenKind::Indent, Span::new(self.line, 1, start, indent_level), String::new());
            proof {
                assert(self.chars@.subrange(start_pos as int, start_pos as int) =~= t.text@);
                assert(self.chars@.take(start_pos as int) == self.chars@.take(start_pos as int));
            }
            return Some(t);
        }
        if indent_level < current_indent {
            let dedent = Token::new(TokenKind::Dedent, Span::new(self.line, 1, start, 0), String::new());
            proof {
                assert(self.chars@.subrange(start_pos as int, start_pos as int) =~= dedent.text@);
                assert(self.chars@.take(start_pos as int) == self.chars@.take(start_pos as int));
                assert(token_ok(self.chars@, dedent));
            }
            let stack_len = self.indent_stack.len();
            let mut dedent_count: usize = 0;
            while self.indent_stack.len() > 1 && self.indent_stack[self.indent_stack.len() - 1]
                > indent_level
                invariant
                    self.wf(),
                    self.chars == old(self).chars,
                    forall|q: int| old(self).position <= q < self.position ==> (#[trigger] self.chars@[q] == ' ' || self.chars@[q] == '\t'),
                    self.pending_tokens == old(self).pending_tokens,
                    self.at_line_start == old(self).at_line_start,
                    self.paren_depth == old(self).paren_depth,
                    self.line == old(self).line,
                    self.position >= start_pos,
                    self.position == ws_end(old(self).chars@, old(self).position as int),
                    self.position > start_pos || old(self).measure() >= 2 * (self.chars@.len()
                        - self.position) + old(self).indent_stack@.len() + if self.at_line_start {
                        1int
                    } else {
                        0int
                    },
                    self.indent_stack@.len() + dedent_count == old(self).indent_stack@.len(),
                    stack_len == old(self).indent_stack@.len(),
                    dedent_count == 0 ==> self.indent_stack@ == old(self).indent_stack@,
                    close_blocks(self.indent_stack@, indent_level as nat) == close_blocks(old(self).indent_stack@, indent_level as nat),
                    indent_level == line_indent(old(self).chars@, old(self).position as int),
                decreases self.indent_stack@.len(),
            {
                self.indent_stack.pop();
                dedent_count = dedent_count + 1;
            }
            if dedent_count == 0 {
                return None;
            }
            let mut k: usize = 1;
            while k < dedent_count
                invariant
                    self.wf(),
                    self.chars == old(self).chars,
                    forall|q: int| old(self).position <= q < self.position ==> (#[trigger] self.chars@[q] == ' ' || self.chars@[q] == '\t'),
                    self.at_line_start == old(self).at_line_start,
                    self.paren_depth == old(self).paren_depth,
                    self.line == old(self).line,
                    self.position >= start_pos,
                    self.position == ws_end(old(self).chars@, old(self).position as int),
                    1 <= k <= dedent_count,
                    self.pending_tokens@.len() == k - 1,
                    self.indent_stack@.len() + dedent_count == old(self).indent_stack@.len(),
                    self.indent_stack@ == close_blocks(
                        old(self).indent_stack@,
                        line_indent(old(self).chars@, old(self).position as int),
                    ),
                    token_ok(self.chars@, dedent),
                    dedent.kind is Dedent,
                decreases dedent_count - k,
            {
                let copy = dedent.clone_token();
                assert(token_ok(self.chars@, copy)) by {
                    assert(self.chars@.take(0) == self.chars@.take(0));
                    let p = choose|p: int|
                        #![trigger self.chars@.take(p)]
                        0 <= p && p + dedent.text@.len() <= self.chars@.len()
                            && self.chars@.subrange(p, p + dedent.text@.len()) == dedent.text@
                            && dedent.span.offset == utf8_len(self.chars@.take(p));
                    assert(self.chars@.take(p) == self.chars@.take(p));
                }
                let ghost before = self.pending_tokens@;
                self.pending_tokens.push(copy);
                assert(forall|i: int| 0 <= i < before.len() ==> self.pending_tokens@[i] == before[i]);
                k = k + 1;
            }
            return Some(dedent);
        }
        None
    }
}

impl Token {
    /// A copy of an indentation token.
    fn clone_token(&self) -> (t: Token)
        requires
            self.kind is Dedent || self.kind is Indent,
        ensures
            t.kind == self.kind,
            t.span == self.span,
            t.text@ == self.text@,
    {
        let kind = match &self.kind {
            TokenKind::Dedent => TokenKind::Dedent,
            TokenKind::Indent => TokenKind::Indent,
            _ => TokenKind::Eof,
        };
        Token::new(kind, self.span, self.text.clone())
    }
}


impl Lexer {
    /// The next token of the stream.
    #[verifier::rlimit(80)]
    #[verifier::spinoff_prover]
    fn next_token(&mut self) -> (t: Token)
        requires
            old(self).wf(),
        ensures
            final(self).wf(),
            final(self).chars == old(self).chars,
            token_ok(final(self).chars@, t),
            final(self).open_indents() == old(self).open_indents() + indent_delta(t.kind),
            t.kind is Eof ==> final(self).finished(),
            !(t.kind is Eof) ==> final(self).measure() < old(self).measure(),
            final(self).position >= old(self).position,
            forall|q: int|
                old(self).position <= q < final(self).position ==> skippable(final(self).chars@, q)
                    || covers(final(self).chars@, t, q),
            is_text_token(t.kind) ==> exists|a: int|
                old(self).position <= a && a + t.text@.len() == final(self).position && #[trigger] token_at(
                    final(self).chars@,
                    t,
                    a,
                ) && lexeme_at(final(self).chars@, a, t) && !(final(self).chars@[a] == ' ' || final(self).chars@[a]
                    == '\t' || final(self).chars@[a] == '\r'),
            step_ok(old(self).chars@, old(self).state(), t, final(self).state()),
    {
        let ghost s0 = self.state();
        // Dedents queued by an earlier indentation change come first.
        if self.pending_tokens.len() > 0 {
            let ghost before = self.pending_tokens@;
            let t = self.pending_tokens.pop().unwrap();
            assert(t == before[before.len() - 1]);
            assert forall|i: int| 0 <= i < self.pending_tokens@.len() implies (
            #[trigger] self.pending_tokens@[i]).kind is Dedent && token_ok(
                self.chars@,
                self.pending_tokens@[i],
            ) by {
                assert(self.pending_tokens@[i] == before[i]);
            }
            assert(self.state() == LexState { pending: (s0.pending - 1) as nat, ..s0 });
            return t;
        }
        loop
            invariant
                self.wf(),
                self.chars == old(self).chars,
                self.pending_tokens@.len() == 0,
                self.open_indents() == old(self).open_indents(),
                self.measure() <= old(self).measure(),
                self.position >= old(self).position,
                forall|q: int| old(self).position <= q < self.position ==> skippable(self.chars@, q),
                s0 == old(self).state(),
                s0.pending == 0,
                forall|t: Token, s2: LexState|
                    #[trigger] scan_ok(self.chars@, self.state(), t, s2) ==> step_ok(self.chars@, s0, t, s2),
            decreases self.measure(),
        {
            let ghost si = self.state();
            if self.at_line_start {
                self.at_line_start = false;
                if self.paren_depth == 0 {
                    match self.process_indentation() {
                        Some(t) => {
                            assert(scan_ok(self.chars@, si, t, self.state()));
                            return t;
                        },
                        None => {},
                    }
                } else {
                    // Inside brackets the indentation of a line carries no meaning.
                    self.skip_line_whitespace();
                }
                proof {
                    assert forall|t: Token, s2: LexState|
                        #[trigger] scan_ok(self.chars@, self.state(), t, s2) implies scan_ok(self.chars@, si, t, s2) by {
                        lemma_scan_past_line_start(self.chars@, si, t, s2);
                    }
                }
            }
            let ghost m = self.state();
            let ghost before_spaces = self.position as int;
            self.skip_spaces();
            proof {
                lemma_ws_end_stops(self.chars@, before_spaces);
                lemma_ws_end_bounds(self.chars@, before_spaces);
            }
            assert(self.state() == LexState { pos: ws_end(self.chars@, m.pos), ..m });
            if self.is_at_end() {
                if self.indent_stack.len() > 1 {
                    let t = self.empty_token(TokenKind::Dedent);
                    self.indent_stack.pop();
                    assert(scan_ok(self.chars@, m, t, self.state()));
                    return t;
                }
                let t = self.empty_token(TokenKind::Eof);
                assert(scan_ok(self.chars@, m, t, self.state()));
                return t;
            }
            let ch = self.current_char();
            if ch == '\\' && self.peek_char() == Some('\n') {
                // A line continuation.
                self.advance();
                self.advance_newline();
                proof {
                    assert forall|t: Token, s2: LexState|
                        #[trigger] scan_ok(self.chars@, self.state(), t, s2) implies scan_ok(self.chars@, m, t, s2) by {
                    }
                }
            } else if ch == '\r' {
                self.advance();
                proof {
                    assert forall|t: Token, s2: LexState|
                        #[trigger] scan_ok(self.chars@, self.state(), t, s2) implies scan_ok(self.chars@, m, t, s2) by {
                    }
                }
            } else if ch == '\n' {
                let ghost p0 = self.position as int;
                match self.read_newline() {
                    Some(t) => {
                        assert(token_at(self.chars@, t, p0));
                        assert(scan_ok(self.chars@, m, t, self.state()));
                        return t;
                    },
                    None => {},
                }
                proof {
                    assert forall|t: Token, s2: LexState|
                        #[trigger] scan_ok(self.chars@, self.state(), t, s2) implies scan_ok(self.chars@, m, t, s2) by {
                    }
                }
            } else if ch == '#' {
                let ghost p0 = self.position as int;
                let t = self.read_comment();
                assert(token_at(self.chars@, t, p0));
                assert(scan_ok(self.chars@, m, t, self.state()));
                return t;
            } else if ch == '@' {
                let ghost p0 = self.position as int;
                let t = self.read_annotation();
                assert(token_at(self.chars@, t, p0));
                assert(scan_ok(self.chars@, m, t, self.state()));
                return t;
            } else if ch == '\u{22}' || ch == '\'' {
                let start = self.position;
                let sc = self.column;
                let so = self.byte_offset;
                assert(self.chars@.subrange(start as int, start as int).len() == 0);
                let t = self.read_string(StringPrefix::Bare, start, sc, so);
                assert(token_at(self.chars@, t, start as int));
                assert(scan_ok(self.chars@, m, t, self.state()));
                return t;
            } else if (ch == 'r' || ch == 'R' || ch == '&' || ch == '^') && self.peek_is_quote() {
                let start = self.position;
                let sc = self.column;
                let so = self.byte_offset;
                self.advance();
                assert(self.chars@.subrange(start as int, self.position as int) =~= seq![ch]);
                let prefix = if ch == '&' {
                    StringPrefix::StringName
                } else if ch == '^' {
                    StringPrefix::NodePath
                } else {
                    StringPrefix::Raw
                };
                let t = self.read_string(prefix, start, sc, so);
                assert(token_at(self.chars@, t, start as int));
                assert(scan_ok(self.chars@, m, t, self.state()));
                return t;
            } else if ascii_digit(ch) {
                let ghost p0 = self.position as int;
                let t = self.read_number();
                assert(token_at(self.chars@, t, p0));
                assert(scan_ok(self.chars@, m, t, self.state()));
                return t;
            } else if char_is_alphabetic(ch) || ch == '_' {
                let ghost p0 = self.position as int;
                let t = self.read_identifier();
                assert(token_at(self.chars@, t, p0));
                assert(scan_ok(self.chars@, m, t, self.state()));
                return t;
            } else if ch == '$' {
                let ghost p0 = self.position as int;
                let t = self.read_single_char(TokenKind::Dollar);
                assert(token_at(self.chars@, t, p0));
                assert(scan_ok(self.chars@, m, t, self.state()));
                return t;
            } else {
                let ghost p0 = self.position as int;
                let t = self.read_operator();
                assert(token_at(self.chars@, t, p0));
                assert(scan_ok(self.chars@, m, t, self.state()));
                return t;
            }
        }
    }

    /// Tokenize the entire source into a vector of tokens, ending with `Eof`.
    pub fn tokenize(&mut self) -> (tokens: Vec<Token>)
        requires
            old(self).wf(),
            old(self).open_indents() == 0,
        ensures
            final(self).wf(),
            final(self).source() == old(self).source(),
            final(self).open_indents() == 0,
            tokens@.len() >= 1,
            tokens@[tokens@.len() - 1].kind is Eof,
            forall|i: int| 0 <= i < tokens@.len() - 1 ==> !(#[trigger] tokens@[i].kind is Eof),
            forall|i: int| 0 <= i < tokens@.len() ==> token_ok(old(self).source(), #[trigger] tokens@[i]),
            indent_balance(tokens@) == 0,
            forall|k: int| 0 <= k <= tokens@.len() ==> indent_balance(#[trigger] tokens@.take(k)) >= 0,
            forall|q: int|
                old(self).consumed() <= q < old(self).source().len() ==> skippable(old(self).source(), q)
                    || exists|i: int| 0 <= i < tokens@.len() && covers(old(self).source(), #[trigger] tokens@[i], q),
            in_source_order(old(self).source(), tokens@),
            in_source_order_from(old(self).source(), tokens@, old(self).consumed()),
            lexes(old(self).source(), old(self).state(), tokens@),
            forall|i: int, j: int|
                0 <= i < j < tokens@.len() && is_text_token(tokens@[i].kind) && is_text_token(tokens@[j].kind)
                    ==> #[trigger] tokens@[i].span.offset <= #[trigger] tokens@[j].span.offset,
    {
        let mut tokens: Vec<Token> = Vec::new();
        let ghost mut starts: Seq<int> = Seq::empty();
        let ghost mut states: Seq<LexState> = seq![self.state()];
        assert(tokens@.take(0) == tokens@);
        loop
            invariant
                self.wf(),
                self.chars == old(self).chars,
                indent_balance(tokens@) == self.open_indents(),
                forall|i: int| 0 <= i < tokens@.len() ==> !(#[trigger] tokens@[i].kind is Eof),
                forall|i: int| 0 <= i < tokens@.len() ==> token_ok(self.chars@, #[trigger] tokens@[i]),
                forall|k: int| 0 <= k <= tokens@.len() ==> indent_balance(#[trigger] tokens@.take(k)) >= 0,
                self.position >= old(self).position,
                forall|q: int|
                    old(self).position <= q < self.position ==> skippable(self.chars@, q) || exists|i: int|
                        0 <= i < tokens@.len() && covers(self.chars@, #[trigger] tokens@[i], q),
                ordered_at(self.chars@, tokens@, starts),
                forall|i: int|
                    0 <= i < tokens@.len() && is_text_token(tokens@[i].kind) ==> old(self).position <= #[trigger] starts[i],
                states.len() == tokens@.len() + 1,
                states[0] == old(self).state(),
                states[states.len() - 1] == self.state(),
                forall|k: int| 0 <= k < tokens@.len() ==> step_ok(self.chars@, #[trigger] states[k], tokens@[k], states[k + 1]),
                forall|i: int|
                    0 <= i < tokens@.len() && is_text_token(tokens@[i].kind) ==> starts[i]
                        + (#[trigger] tokens@[i]).text@.len() <= self.position,
            decreases self.measure(),
        {
            let ghost before_pos = self.position as int;
            let ghost st0 = self.state();
            let token = self.next_token();
            let is_eof = matches!(token.kind, TokenKind::Eof);
            let ghost before = tokens@;
            let ghost a: int = if is_text_token(token.kind) {
                choose|a: int| before_pos <= a && a + token.text@.len() == self.position && #[trigger] token_at(self.chars@, token, a)
                    && lexeme_at(self.chars@, a, token) && starts_text(self.chars@, a)
            } else {
                0
            };
            tokens.push(token);
            proof {
                let states0 = states;
                states = states.push(self.state());
                assert forall|k: int| 0 <= k < tokens@.len() implies step_ok(
                    self.chars@,
                    #[trigger] states[k],
                    tokens@[k],
                    states[k + 1],
                ) by {
                    if k < tokens@.len() - 1 {
                        assert(states[k] == states0[k]);
                        assert(states[k + 1] == states0[k + 1]);
                        assert(tokens@[k] == before[k]);
                    } else {
                        assert(states[k] == st0);
                    }
                }
                lemma_ordered_push(self.chars@, before, starts, token, a, before_pos);
                starts = starts.push(a);
                assert forall|i: int|
                    0 <= i < tokens@.len() && is_text_token(tokens@[i].kind) implies starts[i]
                        + (#[trigger] tokens@[i]).text@.len() <= self.position by {
                    if i < before.len() {
                        assert(tokens@[i] == before[i]);
                    }
                }
                assert(tokens@.subrange(0, tokens@.len() - 1) == before);
                let last = tokens@.len() - 1;
                assert(tokens@[last] == token);
                assert forall|q: int| old(self).position <= q < self.position implies skippable(self.chars@, q) || exists|i: int|
                    0 <= i < tokens@.len() && covers(self.chars@, #[trigger] tokens@[i], q) by {
                    if q < before_pos {
                        if !skippable(self.chars@, q) {
                            let i = choose|i: int| 0 <= i < before.len() && covers(self.chars@, #[trigger] before[i], q);
                            assert(tokens@[i] == before[i]);
                        }
                    } else {
                        if !skippable(self.chars@, q) {
                            assert(covers(self.chars@, tokens@[last], q));
                        }
                    }
                }
                assert forall|k: int| 0 <= k <= tokens@.len() implies indent_balance(
                    #[trigger] tokens@.take(k),
                ) >= 0 by {
                    if k < tokens@.len() {
                        assert(tokens@.take(k) == before.take(k));
                    } else {
                        assert(tokens@.take(k) == tokens@);
                    }
                }
            }
            if is_eof {
                proof {
                    assert forall|i: int, j: int|
                        0 <= i < j < tokens@.len() && is_text_token(tokens@[i].kind) && is_text_token(
                            tokens@[j].kind,
                        ) implies #[trigger] tokens@[i].span.offset <= #[trigger] tokens@[j].span.offset by {
                        lemma_ordered_offsets(self.chars@, tokens@, starts, i, j);
                    }
                    assert(states.len() == tokens@.len() + 1);
                    assert(lexes(self.chars@, old(self).state(), tokens@));
                }
                return tokens;
            }
        }
    }
}

} // verus!
