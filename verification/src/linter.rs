//! Linting a source text: line endings, suppression comments, and the whole pipeline.
use vstd::prelude::*;

use crate::ast::{flatten, ClassMember, ScriptFile};
use crate::config::Config;
use crate::diagnostic::{diag_views, lemma_diag_views_push, DiagView, Diagnostic, Severity};
use crate::lexer::{count_char, in_source_order, indent_balance, skippable, token_ok, Lexer, MAX_SOURCE_CHARS};
use crate::parser::{members_ok, span_in, tokens_ok, Parser};
use crate::rules::quality::{bodies_in_file, chain_view, concat_idx, lines_bounded};
use crate::rules::rule_ids::{all_enabled, lemma_add_enabled, lemma_concat_idx_of_rule, lemma_only_enabled_rules_report};
use crate::rules::{all_rule_diags, apply_severity, enabled, run_all_rules, when_enabled};
use crate::text::{
    chars_of, find_chars, is_whitespace, is_ws, occurs_at, seq_contains_seq, seq_starts_with,
    starts_with, string_from_chars, trim, trim_chars,
};
use crate::token::{Token, TokenKind};

verus! {

// ---------------------------------------------------------------------------
// Line endings
// ---------------------------------------------------------------------------

/// `s` with every `\r\n`, and every other `\r`, turned into `\n`.
pub open spec fn normalize(s: Seq<char>) -> Seq<char>
    decreases s.len(),
{
    if s.len() == 0 {
        Seq::empty()
    } else if s[0] == '\r' && s.len() > 1 && s[1] == '\n' {
        seq!['\n'] + normalize(s.subrange(2, s.len() as int))
    } else if s[0] == '\r' {
        seq!['\n'] + normalize(s.subrange(1, s.len() as int))
    } else {
        seq![s[0]] + normalize(s.subrange(1, s.len() as int))
    }
}

pub proof fn lemma_normalize_len(s: Seq<char>)
    ensures
        normalize(s).len() <= s.len(),
    decreases s.len(),
{
    if s.len() > 0 {
        lemma_normalize_len(s.subrange(1, s.len() as int));
        if s.len() > 1 {
            lemma_normalize_len(s.subrange(2, s.len() as int));
        }
    }
}

/// Convert every `\r\n`, and every other `\r`, to `\n`.
pub fn normalize_line_endings(source: &str) -> (r: String)
    ensures
        r@ == normalize(source@),
{
    let s = chars_of(source);
    let ghost sv = s@;
    let n = s.len();
    let mut out: Vec<char> = Vec::new();
    let mut i: usize = 0;
    assert(sv.subrange(0, n as int) == sv);
    assert(out@ + normalize(sv) =~= normalize(sv));
    while i < n
        invariant
            n == sv.len(),
            sv == s@,
            i <= n,
            out@ + normalize(sv.subrange(i as int, n as int)) == normalize(sv),
        decreases n - i,
    {
        let ghost rest = sv.subrange(i as int, n as int);
        let ghost before = out@;
        if s[i] == '\r' && i + 1 < n && s[i + 1] == '\n' {
            out.push('\n');
            assert(rest.subrange(2, rest.len() as int) == sv.subrange(i + 2, n as int));
            assert(before.push('\n') + normalize(sv.subrange(i + 2, n as int)) =~= before + (seq!['\n']
                + normalize(sv.subrange(i + 2, n as int))));
            i = i + 2;
        } else {
            let c = if s[i] == '\r' {
                '\n'
            } else {
                s[i]
            };
            out.push(c);
            assert(rest.subrange(1, rest.len() as int) == sv.subrange(i + 1, n as int));
            assert(before.push(c) + normalize(sv.subrange(i + 1, n as int)) =~= before + (seq![c]
                + normalize(sv.subrange(i + 1, n as int))));
            i = i + 1;
        }
    }
    assert(normalize(sv.subrange(n as int, n as int)) =~= Seq::<char>::empty());
    assert(out@ + Seq::<char>::empty() == out@);
    string_from_chars(out.as_slice())
}

/// Normalized text holds no carriage return.
pub proof fn lemma_normalize_no_cr(s: Seq<char>)
    ensures
        !normalize(s).contains('\r'),
    decreases s.len(),
{
    if s.len() > 0 {
        let rest = if s[0] == '\r' && s.len() > 1 && s[1] == '\n' {
            s.subrange(2, s.len() as int)
        } else {
            s.subrange(1, s.len() as int)
        };
        lemma_normalize_no_cr(rest);
        let head = if s[0] == '\r' {
            '\n'
        } else {
            s[0]
        };
        assert(normalize(s) == seq![head] + normalize(rest));
        assert forall|k: int| 0 <= k < normalize(s).len() implies normalize(s)[k] != '\r' by {
            if k > 0 {
                assert(normalize(s)[k] == normalize(rest)[k - 1]);
            }
        }
    }
}

/// Text without carriage returns is left as it is.
pub proof fn lemma_normalize_identity(s: Seq<char>)
    requires
        !s.contains('\r'),
    ensures
        normalize(s) == s,
    decreases s.len(),
{
    if s.len() > 0 {
        let rest = s.subrange(1, s.len() as int);
        assert(!rest.contains('\r')) by {
            if rest.contains('\r') {
                let k = choose|k: int| 0 <= k < rest.len() && rest[k] == '\r';
                assert(s[k + 1] == '\r');
            }
        }
        assert(s[0] != '\r') by {
            assert(s.contains(s[0]));
        }
        lemma_normalize_identity(rest);
        assert(seq![s[0]] + rest =~= s);
    }
}

/// Normalizing twice changes nothing more than normalizing once.
pub proof fn lemma_normalize_idempotent(s: Seq<char>)
    ensures
        normalize(normalize(s)) == normalize(s),
{
    lemma_normalize_no_cr(s);
    lemma_normalize_identity(normalize(s));
}

// ---------------------------------------------------------------------------
// Splitting
// ---------------------------------------------------------------------------

/// `s` split at every `c`, as `str::split` does: `n` separators give `n + 1` pieces.
pub open spec fn split_on(s: Seq<char>, c: char) -> Seq<Seq<char>>
    decreases s.len(),
{
    if s.len() == 0 {
        seq![Seq::empty()]
    } else {
        let r = split_on(s.drop_last(), c);
        if s.last() == c {
            r.push(Seq::empty())
        } else {
            r.update(r.len() - 1, r.last().push(s.last()))
        }
    }
}

pub proof fn lemma_split_on_shape(s: Seq<char>, c: char)
    ensures
        split_on(s, c).len() == 1 + count_char(s, c),
        forall|k: int| 0 <= k < split_on(s, c).len() ==> #[trigger] split_on(s, c)[k].len() <= s.len(),
    decreases s.len(),
{
    if s.len() > 0 {
        lemma_split_on_shape(s.drop_last(), c);
        assert(s.drop_last() == s.subrange(0, s.len() - 1));
    }
}

pub proof fn lemma_count_char_le(s: Seq<char>, c: char)
    ensures
        count_char(s, c) <= s.len(),
    decreases s.len(),
{
    if s.len() > 0 {
        lemma_count_char_le(s.subrange(0, s.len() - 1), c);
    }
}

/// `s` split at every `c`.
fn split_chars(s: &[char], c: char) -> (r: Vec<Vec<char>>)
    ensures
        chain_view(r@) == split_on(s@, c),
{
    let n = s.len();
    let mut done: Vec<Vec<char>> = Vec::new();
    let mut cur: Vec<char> = Vec::new();
    let mut i: usize = 0;
    while i < n
        invariant
            n == s@.len(),
            i <= n,
            chain_view(done@).push(cur@) == split_on(s@.take(i as int), c),
        decreases n - i,
    {
        let ghost d0 = chain_view(done@);
        let ghost c0 = cur@;
        assert(s@.take(i + 1).drop_last() == s@.take(i as int));
        if s[i] == c {
            let piece = cur;
            done.push(piece);
            cur = Vec::new();
            assert(chain_view(done@) =~= d0.push(c0));
            assert(chain_view(done@).push(cur@) =~= d0.push(c0).push(Seq::empty()));
        } else {
            cur.push(s[i]);
            assert(chain_view(done@).push(cur@) =~= d0.push(c0).update(d0.len() as int, c0.push(s@[i as int])));
        }
        i = i + 1;
    }
    assert(s@.take(n as int) == s@);
    let ghost d0 = chain_view(done@);
    done.push(cur);
    assert(chain_view(done@) =~= d0.push(cur@));
    done
}

/// The texts of a sequence of lines.
pub open spec fn lines_view(v: Seq<String>) -> Seq<Seq<char>> {
    v.map_values(|l: String| l@)
}

/// `source` split at every `\n` (the last piece is empty when it ends with one).
fn split_lines(source: &[char]) -> (lines: Vec<String>)
    ensures
        lines_view(lines@) == split_on(source@, '\n'),
{
    let pieces = split_chars(source, '\n');
    let mut lines: Vec<String> = Vec::new();
    let mut k: usize = 0;
    while k < pieces.len()
        invariant
            k <= pieces@.len(),
            lines_view(lines@) == chain_view(pieces@).take(k as int),
        decreases pieces@.len() - k,
    {
        let ghost l0 = lines_view(lines@);
        lines.push(string_from_chars(pieces[k].as_slice()));
        assert(lines_view(lines@) =~= l0.push(pieces@[k as int]@));
        assert(chain_view(pieces@).take(k + 1) =~= chain_view(pieces@).take(k as int).push(pieces@[k as int]@));
        k = k + 1;
    }
    assert(chain_view(pieces@).take(pieces@.len() as int) == chain_view(pieces@));
    lines
}


// ---------------------------------------------------------------------------
// Suppression comments
// ---------------------------------------------------------------------------

/// A rule list of a directive: `None` stands for every rule.
pub type RuleList = Option<Vec<Vec<char>>>;

pub open spec fn rule_list_view(r: RuleList) -> Option<Seq<Seq<char>>> {
    match r {
        Some(v) => Some(chain_view(v@)),
        None => None,
    }
}

/// After a directive's prefix: nothing, `=`, or whitespace (so that
/// `# gdstyle:ignore-foo` is no directive).
pub open spec fn terminator_ok(rest: Seq<char>) -> bool {
    rest.len() == 0 || rest[0] == '=' || is_ws(rest[0])
}

/// The non-empty trimmed pieces.
pub open spec fn nonempty_trimmed(ps: Seq<Seq<char>>) -> Seq<Seq<char>>
    decreases ps.len(),
{
    if ps.len() == 0 {
        Seq::empty()
    } else {
        let r = nonempty_trimmed(ps.drop_last());
        let t = trim(ps.last());
        if t.len() > 0 {
            r.push(t)
        } else {
            r
        }
    }
}

/// The rules a directive names after its prefix: `=a, b` names `a` and `b`;
/// without `=` it names every rule (`None`).
pub open spec fn directive_rules(rest: Seq<char>) -> Option<Seq<Seq<char>>> {
    let t = trim(rest);
    if t.len() > 0 && t[0] == '=' {
        Some(nonempty_trimmed(split_on(t.subrange(1, t.len() as int), ',')))
    } else {
        None
    }
}

/// Where `p` first occurs in `s`.
pub open spec fn first_occurrence(s: Seq<char>, p: Seq<char>) -> Option<int> {
    if seq_contains_seq(s, p) {
        Some(choose|i: int| occurs_at(s, p, i) && forall|j: int| 0 <= j < i ==> !occurs_at(s, p, j))
    } else {
        None
    }
}

pub open spec fn file_prefix() -> Seq<char> {
    "# gdstyle:ignore-file"@
}

pub open spec fn line_prefix() -> Seq<char> {
    "# gdstyle:ignore"@
}

/// The rules a `# gdstyle:ignore-file` directive on `line` suppresses in the
/// whole file, if the line holds one (on its own or after code).
#[verifier::opaque]
pub open spec fn file_directive(line: Seq<char>) -> Option<Option<Seq<Seq<char>>>> {
    let t = trim(line);
    let fp = file_prefix();
    if seq_starts_with(t, fp) && terminator_ok(t.subrange(fp.len() as int, t.len() as int)) {
        Some(directive_rules(t.subrange(fp.len() as int, t.len() as int)))
    } else {
        match first_occurrence(line, fp) {
            Some(p) => if terminator_ok(line.subrange(p + fp.len(), line.len() as int)) {
                Some(directive_rules(line.subrange(p + fp.len(), line.len() as int)))
            } else {
                None
            },
            None => None,
        }
    }
}

/// The rules a standalone `# gdstyle:ignore` on `line` suppresses on the next code line.
#[verifier::opaque]
pub open spec fn next_line_directive(line: Seq<char>) -> Option<Option<Seq<Seq<char>>>> {
    let t = trim(line);
    let lp = line_prefix();
    if file_directive(line) is None && seq_starts_with(t, lp) && terminator_ok(
        t.subrange(lp.len() as int, t.len() as int),
    ) {
        Some(directive_rules(t.subrange(lp.len() as int, t.len() as int)))
    } else {
        None
    }
}

/// The rules a `# gdstyle:ignore` after code on `line` suppresses on that line.
#[verifier::opaque]
pub open spec fn same_line_directive(line: Seq<char>) -> Option<Option<Seq<Seq<char>>>> {
    let lp = line_prefix();
    if file_directive(line) is None {
        match first_occurrence(line, lp) {
            Some(p) => if trim(line.take(p)).len() > 0 && terminator_ok(
                line.subrange(p + lp.len(), line.len() as int),
            ) {
                Some(directive_rules(line.subrange(p + lp.len(), line.len() as int)))
            } else {
                None
            },
            None => None,
        }
    } else {
        None
    }
}

/// A line that holds code: neither blank nor a comment.
pub open spec fn is_code_text(line: Seq<char>) -> bool {
    trim(line).len() > 0 && trim(line)[0] != '#'
}

/// The (1-based) number of the first code line at index `j` or after; one
/// past the last line when no code line follows.
pub open spec fn next_code_target(lines: Seq<Seq<char>>, j: int) -> int
    decreases lines.len() - j,
{
    if j < 0 || j >= lines.len() {
        lines.len() as int + 1
    } else if is_code_text(lines[j]) {
        j + 1
    } else {
        next_code_target(lines, j + 1)
    }
}

/// The file-level directives of the first `n` lines, in order.
pub open spec fn file_dirs(lines: Seq<Seq<char>>, n: int) -> Seq<Option<Seq<Seq<char>>>>
    decreases n,
{
    if n <= 0 {
        Seq::empty()
    } else {
        let r = file_dirs(lines, n - 1);
        match file_directive(lines[n - 1]) {
            Some(x) => r.push(x),
            None => r,
        }
    }
}

/// The per-line directives of the first `n` lines, each with the (1-based)
/// line it applies to (a standalone one applies to the next code line), in order.
pub open spec fn line_dirs(lines: Seq<Seq<char>>, n: int) -> Seq<(int, Option<Seq<Seq<char>>>)>
    decreases n,
{
    if n <= 0 {
        Seq::empty()
    } else {
        let r = line_dirs(lines, n - 1);
        let r1 = match next_line_directive(lines[n - 1]) {
            Some(x) => r.push((next_code_target(lines, n), x)),
            None => r,
        };
        match same_line_directive(lines[n - 1]) {
            Some(x) => r1.push((n, x)),
            None => r1,
        }
    }
}

/// A rule list covers `rule`: it names it, or it stands for every rule.
pub open spec fn covers(r: Option<Seq<Seq<char>>>, rule: Seq<char>) -> bool {
    match r {
        Some(rs) => rs.contains(rule),
        None => true,
    }
}

/// A finding of `rule` on line `line` is suppressed by the directives of
/// `lines`: a file-level one covers the rule, or a per-line one for that line does.
pub open spec fn suppressed(lines: Seq<Seq<char>>, rule: Seq<char>, line: int) -> bool {
    suppressed_by(file_dirs(lines, lines.len() as int), line_dirs(lines, lines.len() as int), rule, line)
}

/// A finding of `rule` on line `line` is suppressed by the file-level rule
/// lists `fd` or the per-line ones `ld`.
pub open spec fn suppressed_by(
    fd: Seq<Option<Seq<Seq<char>>>>,
    ld: Seq<(int, Option<Seq<Seq<char>>>)>,
    rule: Seq<char>,
    line: int,
) -> bool {
    ||| exists|k: int| 0 <= k < fd.len() && covers(#[trigger] fd[k], rule)
    ||| exists|k: int| 0 <= k < ld.len() && (#[trigger] ld[k]).0 == line && covers(ld[k].1, rule)
}

fn directive_terminator_ok(rest: &[char]) -> (r: bool)
    ensures
        r == terminator_ok(rest@),
{
    rest.len() == 0 || rest[0] == '=' || is_whitespace(rest[0])
}

fn parse_suppression_rules(rest: &[char]) -> (r: RuleList)
    ensures
        rule_list_view(r) == directive_rules(rest@),
{
    let t = trim_chars(rest);
    if t.len() > 0 && t[0] == '=' {
        let body = crate::text::chars_range(t.as_slice(), 1, t.len());
        let pieces = split_chars(body.as_slice(), ',');
        let mut rules: Vec<Vec<char>> = Vec::new();
        let mut k: usize = 0;
        while k < pieces.len()
            invariant
                k <= pieces@.len(),
                chain_view(rules@) == nonempty_trimmed(chain_view(pieces@).take(k as int)),
            decreases pieces@.len() - k,
        {
            let ghost r0 = chain_view(rules@);
            let piece = trim_chars(pieces[k].as_slice());
            assert(chain_view(pieces@).take(k + 1).drop_last() == chain_view(pieces@).take(k as int));
            if piece.len() > 0 {
                rules.push(piece);
                assert(chain_view(rules@) =~= r0.push(trim(pieces@[k as int]@)));
            }
            k = k + 1;
        }
        assert(chain_view(pieces@).take(pieces@.len() as int) == chain_view(pieces@));
        Some(rules)
    } else {
        None
    }
}

/// Where `p` first occurs in `s`, if anywhere.
fn find_first(s: &[char], p: &[char]) -> (r: Option<usize>)
    ensures
        match r {
            Some(i) => first_occurrence(s@, p@) == Some(i as int) && i + p@.len() <= s@.len(),
            None => first_occurrence(s@, p@) is None,
        },
{
    let r = find_chars(s, p);
    match r {
        Some(i) => {
            assert(seq_contains_seq(s@, p@));
            let ghost c = choose|j: int| occurs_at(s@, p@, j) && forall|k: int| 0 <= k < j ==> !occurs_at(s@, p@, k);
            proof {
                assert(occurs_at(s@, p@, c) && forall|k: int| 0 <= k < c ==> !occurs_at(s@, p@, k));
                if c < i {
                    assert(!occurs_at(s@, p@, c));
                } else if c > i {
                    assert(!occurs_at(s@, p@, i as int));
                }
            }
        },
        None => {},
    }
    r
}

/// The file-level directive of a line, if it holds one.
fn file_directive_of(line: &[char], trimmed: &[char]) -> (r: Option<RuleList>)
    requires
        trimmed@ == trim(line@),
    ensures
        match r {
            Some(x) => file_directive(line@) == Some(rule_list_view(x)),
            None => file_directive(line@) is None,
        },
{
    reveal(file_directive);
    let n = line.len();
    let fp = chars_of("# gdstyle:ignore-file");
    // A file-level directive is looked for first, since the per-line
    // prefix is a prefix of it.
    if starts_with(trimmed, fp.as_slice()) {
        let rest = crate::text::chars_range(trimmed, fp.len(), trimmed.len());
        if directive_terminator_ok(rest.as_slice()) {
            return Some(parse_suppression_rules(rest.as_slice()));
        }
    }
    match find_first(line, fp.as_slice()) {
        Some(pos) => {
            let rest = crate::text::chars_range(line, pos + fp.len(), n);
            if directive_terminator_ok(rest.as_slice()) {
                return Some(parse_suppression_rules(rest.as_slice()));
            }
        },
        None => {},
    }
    None
}

/// The standalone per-line directive of a line (it applies to the next code line).
fn next_line_directive_of(line: &[char], trimmed: &[char]) -> (r: Option<RuleList>)
    requires
        trimmed@ == trim(line@),
        file_directive(line@) is None,
    ensures
        match r {
            Some(x) => next_line_directive(line@) == Some(rule_list_view(x)),
            None => next_line_directive(line@) is None,
        },
{
    reveal(next_line_directive);
    let lp = chars_of("# gdstyle:ignore");
    if starts_with(trimmed, lp.as_slice()) {
        let rest = crate::text::chars_range(trimmed, lp.len(), trimmed.len());
        if directive_terminator_ok(rest.as_slice()) {
            return Some(parse_suppression_rules(rest.as_slice()));
        }
    }
    None
}

/// The inline per-line directive of a line (after code; it applies to the line itself).
fn same_line_directive_of(line: &[char]) -> (r: Option<RuleList>)
    requires
        file_directive(line@) is None,
    ensures
        match r {
            Some(x) => same_line_directive(line@) == Some(rule_list_view(x)),
            None => same_line_directive(line@) is None,
        },
{
    reveal(same_line_directive);
    let n = line.len();
    let lp = chars_of("# gdstyle:ignore");
    match find_first(line, lp.as_slice()) {
        Some(pos) => {
            let before = crate::text::chars_range(line, 0, pos);
            let before_trimmed = trim_chars(before.as_slice());
            if before_trimmed.len() > 0 {
                let rest = crate::text::chars_range(line, pos + lp.len(), n);
                if directive_terminator_ok(rest.as_slice()) {
                    return Some(parse_suppression_rules(rest.as_slice()));
                }
            }
        },
        None => {},
    }
    None
}

/// The directives of one line: a file-level one, or per-line ones for the
/// next line and for the line itself.
fn line_directives(line: &[char]) -> (r: (Option<RuleList>, Option<RuleList>, Option<RuleList>))
    ensures
        match r.0 {
            Some(x) => file_directive(line@) == Some(rule_list_view(x)),
            None => file_directive(line@) is None,
        },
        match r.1 {
            Some(x) => next_line_directive(line@) == Some(rule_list_view(x)),
            None => next_line_directive(line@) is None,
        },
        match r.2 {
            Some(x) => same_line_directive(line@) == Some(rule_list_view(x)),
            None => same_line_directive(line@) is None,
        },
{
    let trimmed = trim_chars(line);
    match file_directive_of(line, trimmed.as_slice()) {
        Some(x) => {
            proof {
                reveal(next_line_directive);
                reveal(same_line_directive);
            }
            (Some(x), None, None)
        },
        None => {
            let next = next_line_directive_of(line, trimmed.as_slice());
            let same = same_line_directive_of(line);
            (None, next, same)
        },
    }
}

/// The directives of a file: file-level rule lists, and per-line rule lists
/// with the (1-based) line each applies to.
pub struct Suppressions {
    file_level: Vec<RuleList>,
    per_line: Vec<(usize, RuleList)>,
}

pub open spec fn per_line_view(v: Seq<(usize, RuleList)>) -> Seq<(int, Option<Seq<Seq<char>>>)> {
    v.map_values(|e: (usize, RuleList)| (e.0 as int, rule_list_view(e.1)))
}

pub open spec fn file_level_view(v: Seq<RuleList>) -> Seq<Option<Seq<Seq<char>>>> {
    v.map_values(|e: RuleList| rule_list_view(e))
}

impl Suppressions {
    pub closed spec fn file_view(&self) -> Seq<Option<Seq<Seq<char>>>> {
        file_level_view(self.file_level@)
    }

    pub closed spec fn line_view(&self) -> Seq<(int, Option<Seq<Seq<char>>>)> {
        per_line_view(self.per_line@)
    }
}

/// The number of the first code line at index `j` or after (one past the
/// last line when none follows).
fn next_code_line_number(lines: &Vec<String>, j: usize) -> (r: usize)
    requires
        j <= lines@.len() <= MAX_SOURCE_CHARS + 1,
    ensures
        r == next_code_target(lines_view(lines@), j as int),
{
    let ghost ls = lines_view(lines@);
    let n = lines.len();
    let mut k = j;
    while k < n
        invariant
            j <= k <= n,
            n == lines@.len(),
            n <= MAX_SOURCE_CHARS + 1,
            ls == lines_view(lines@),
            next_code_target(ls, k as int) == next_code_target(ls, j as int),
        decreases n - k,
    {
        let line = chars_of(lines[k].as_str());
        assert(line@ == ls[k as int]);
        let t = trim_chars(line.as_slice());
        if t.len() > 0 && t[0] != '#' {
            return k + 1;
        }
        k = k + 1;
    }
    n + 1
}

/// Collect the suppression directives of `lines`.
fn parse_suppression_comments(lines: &Vec<String>) -> (s: Suppressions)
    requires
        lines@.len() <= MAX_SOURCE_CHARS + 1,
    ensures
        s.file_view() == file_dirs(lines_view(lines@), lines@.len() as int),
        s.line_view() == line_dirs(lines_view(lines@), lines@.len() as int),
{
    let ghost ls = lines_view(lines@);
    let mut file_level: Vec<RuleList> = Vec::new();
    let mut per_line: Vec<(usize, RuleList)> = Vec::new();
    let n = lines.len();
    let mut i: usize = 0;
    while i < n
        invariant
            n == lines@.len(),
            n <= MAX_SOURCE_CHARS + 1,
            ls == lines_view(lines@),
            i <= n,
            file_level_view(file_level@) == file_dirs(ls, i as int),
            per_line_view(per_line@) == line_dirs(ls, i as int),
        decreases n - i,
    {
        let line = chars_of(lines[i].as_str());
        assert(line@ == ls[i as int]);
        let line_num = i + 1;
        let ghost f0 = file_level_view(file_level@);
        let ghost p0 = per_line_view(per_line@);
        let (file_rules, next_rules, same_rules) = line_directives(line.as_slice());
        match file_rules {
            Some(r) => {
                let ghost rv = rule_list_view(r);
                file_level.push(r);
                assert(file_level_view(file_level@) =~= f0.push(rv));
            },
            None => {},
        }
        let ghost p1 = per_line_view(per_line@);
        match next_rules {
            Some(r) => {
                let ghost rv = rule_list_view(r);
                let target = next_code_line_number(lines, i + 1);
                per_line.push((target, r));
                assert(per_line_view(per_line@) =~= p0.push((target as int, rv)));
            },
            None => {},
        }
        let ghost p2 = per_line_view(per_line@);
        match same_rules {
            Some(r) => {
                let ghost rv = rule_list_view(r);
                per_line.push((line_num, r));
                assert(per_line_view(per_line@) =~= p2.push((i + 1, rv)));
            },
            None => {},
        }
        i = i + 1;
    }
    Suppressions { file_level, per_line }
}

fn matches_rule_list(rules: &RuleList, rule: &[char]) -> (r: bool)
    ensures
        r == covers(rule_list_view(*rules), rule@),
{
    if rules.is_none() {
        return true;
    }
    let rs = rules.as_ref().unwrap();
    assert(*rules == Some(*rs));
    let mut k: usize = 0;
    while k < rs.len()
        invariant
            k <= rs@.len(),
            *rules == Some(*rs),
            forall|q: int| 0 <= q < k ==> rs@[q]@ != rule@,
        decreases rs@.len() - k,
    {
        if crate::text::chars_eq(rs[k].as_slice(), rule) {
            assert(chain_view(rs@)[k as int] == rule@);
            assert(chain_view(rs@).contains(rule@));
            return true;
        }
        k = k + 1;
    }
    assert(!chain_view(rs@).contains(rule@)) by {
        if chain_view(rs@).contains(rule@) {
            let q = choose|q: int| 0 <= q < chain_view(rs@).len() && chain_view(rs@)[q] == rule@;
            assert(rs@[q]@ == rule@);
        }
    }
    false
}

/// Whether a directive of `s` suppresses `d`.
fn is_suppressed(d: &Diagnostic, s: &Suppressions) -> (r: bool)
    ensures
        r == suppressed_by(s.file_view(), s.line_view(), d.rule@, d.span.line as int),
{
    let rule = chars_of(d.rule.as_str());
    let ghost fd = s.file_view();
    let ghost ld = s.line_view();
    let mut k: usize = 0;
    while k < s.file_level.len()
        invariant
            k <= s.file_level@.len(),
            fd == file_level_view(s.file_level@),
            rule@ == d.rule@,
            forall|q: int| 0 <= q < k ==> !covers(#[trigger] fd[q], d.rule@),
        decreases s.file_level@.len() - k,
    {
        if matches_rule_list(&s.file_level[k], rule.as_slice()) {
            assert(covers(fd[k as int], d.rule@));
            return true;
        }
        k = k + 1;
    }
    let mut k: usize = 0;
    while k < s.per_line.len()
        invariant
            k <= s.per_line@.len(),
            ld == per_line_view(s.per_line@),
            rule@ == d.rule@,
            forall|q: int| 0 <= q < k ==> !((#[trigger] ld[q]).0 == d.span.line && covers(ld[q].1, d.rule@)),
        decreases s.per_line@.len() - k,
    {
        if s.per_line[k].0 == d.span.line && matches_rule_list(&s.per_line[k].1, rule.as_slice()) {
            assert(ld[k as int].0 == d.span.line && covers(ld[k as int].1, d.rule@));
            return true;
        }
        k = k + 1;
    }
    false
}


// ---------------------------------------------------------------------------
// Linting
// ---------------------------------------------------------------------------

/// The lexer error token `i`, as an error finding.
pub open spec fn lex_error_diag(tokens: Seq<Token>, i: int, path: Seq<char>) -> Seq<DiagView> {
    match tokens[i].kind {
        TokenKind::Error(m) => seq![
            DiagView {
                rule: "syntax/lex-error"@,
                message: m@,
                severity: Severity::Error,
                span: tokens[i].span,
                file: path,
            },
        ],
        _ => Seq::empty(),
    }
}

/// The lexer errors among `tokens`, when the configuration reports them.
pub open spec fn lex_errors(tokens: Seq<Token>, config: Config, path: Seq<char>) -> Seq<DiagView> {
    when_enabled(
        config,
        "syntax/lex-error"@,
        concat_idx(tokens.len() as int, |i: int| lex_error_diag(tokens, i, path)),
    )
}

/// The findings of `ds` that no directive of `lines` suppresses, in order.
pub open spec fn unsuppressed(ds: Seq<DiagView>, lines: Seq<Seq<char>>) -> Seq<DiagView>
    decreases ds.len(),
{
    if ds.len() == 0 {
        Seq::empty()
    } else {
        let r = unsuppressed(ds.drop_last(), lines);
        let d = ds.last();
        if suppressed(lines, d.rule, d.span.line as int) {
            r
        } else {
            r.push(d)
        }
    }
}

/// The lines of a source text, once its line endings are normalized.
pub open spec fn source_lines(source: Seq<char>) -> Seq<Seq<char>> {
    split_on(normalize(source), '\n')
}

/// Linting `source` as `path` gives `out`, where `file` and `tokens` are
/// what the normalized source was parsed and lexed into.
pub open spec fn lint_outcome(
    source: Seq<char>,
    path: Seq<char>,
    config: Config,
    file: ScriptFile,
    tokens: Seq<Token>,
    out: Seq<DiagView>,
) -> bool {
    let text = normalize(source);
    let lines = source_lines(source);
    &&& file.path@ == path
    &&& lines_view(file.lines@) == lines
    &&& tokens.len() >= 1
    &&& tokens[tokens.len() - 1].kind is Eof
    &&& forall|i: int| 0 <= i < tokens.len() ==> token_ok(text, #[trigger] tokens[i])
    &&& forall|q: int|
        0 <= q < text.len() ==> skippable(text, q) || exists|i: int|
            0 <= i < tokens.len() && crate::lexer::covers(text, #[trigger] tokens[i], q)
    &&& in_source_order(text, tokens)
    &&& crate::lexer::lexes(text, crate::lexer::initial_lex_state(), tokens)
    &&& indent_balance(tokens) == 0
    &&& members_ok(tokens, file.members@)
    &&& crate::parser::parses(tokens, 0, file.members@)
    &&& out == unsuppressed(
        apply_severity(all_rule_diags(file, tokens, config), config) + lex_errors(tokens, config, path),
        lines,
    )
}

/// Linting depends on the text only through its normalized line endings:
/// a source and its normalized form have the same outcomes, so `\r\n`, `\r`
/// and `\n` files with the same lines lint alike.
pub proof fn lemma_lint_outcome_normalized(
    source: Seq<char>,
    path: Seq<char>,
    config: Config,
    file: ScriptFile,
    tokens: Seq<Token>,
    out: Seq<DiagView>,
)
    ensures
        lint_outcome(source, path, config, file, tokens, out) == lint_outcome(
            normalize(source),
            path,
            config,
            file,
            tokens,
            out,
        ),
{
    lemma_normalize_idempotent(source);
}

proof fn lemma_unsuppressed_sound(ds: Seq<DiagView>, lines: Seq<Seq<char>>)
    ensures
        forall|k: int|
            0 <= k < unsuppressed(ds, lines).len() ==> !suppressed(
                lines,
                (#[trigger] unsuppressed(ds, lines)[k]).rule,
                unsuppressed(ds, lines)[k].span.line as int,
            ),
    decreases ds.len(),
{
    if ds.len() > 0 {
        lemma_unsuppressed_sound(ds.drop_last(), lines);
    }
}

proof fn lemma_file_dirs_has(lines: Seq<Seq<char>>, n: int, i: int)
    requires
        0 <= i < n <= lines.len(),
        file_directive(lines[i]) is Some,
    ensures
        exists|k: int|
            0 <= k < file_dirs(lines, n).len() && #[trigger] file_dirs(lines, n)[k] == file_directive(
                lines[i],
            ).unwrap(),
    decreases n,
{
    if i < n - 1 {
        lemma_file_dirs_has(lines, n - 1, i);
        let k = choose|k: int|
            0 <= k < file_dirs(lines, n - 1).len() && #[trigger] file_dirs(lines, n - 1)[k] == file_directive(
                lines[i],
            ).unwrap();
        assert(file_dirs(lines, n)[k] == file_dirs(lines, n - 1)[k]);
    } else {
        let r = file_dirs(lines, n - 1);
        assert(file_dirs(lines, n)[r.len() as int] == file_directive(lines[i]).unwrap());
    }
}

proof fn lemma_line_dirs_has(lines: Seq<Seq<char>>, n: int, i: int, target: int, x: Option<Seq<Seq<char>>>)
    requires
        0 <= i < n <= lines.len(),
        (next_line_directive(lines[i]) == Some(x) && target == next_code_target(lines, i + 1)) || (same_line_directive(lines[i]) == Some(x)
            && target == i + 1),
    ensures
        exists|k: int| 0 <= k < line_dirs(lines, n).len() && #[trigger] line_dirs(lines, n)[k] == (target, x),
    decreases n,
{
    let r = line_dirs(lines, n - 1);
    let r1 = match next_line_directive(lines[n - 1]) {
        Some(y) => r.push((next_code_target(lines, n), y)),
        None => r,
    };
    if i < n - 1 {
        lemma_line_dirs_has(lines, n - 1, i, target, x);
        let k = choose|k: int| 0 <= k < r.len() && #[trigger] r[k] == (target, x);
        assert(r1[k] == r[k]);
        assert(line_dirs(lines, n)[k] == r[k]);
    } else {
        if next_line_directive(lines[i]) == Some(x) && target == next_code_target(lines, i + 1) {
            assert(r1[r.len() as int] == (target, x));
            assert(line_dirs(lines, n)[r.len() as int] == (target, x));
        } else {
            assert(line_dirs(lines, n)[r1.len() as int] == (target, x));
        }
    }
}

/// A file-level directive that lists rules (`# gdstyle:ignore-file=a,b,...`)
/// suppresses every rule it lists, whatever its place in the list: linting
/// reports no finding of any of them anywhere in the file.
pub proof fn law_file_directive_suppresses_every_listed_rule(
    source: Seq<char>,
    path: Seq<char>,
    config: Config,
    file: ScriptFile,
    tokens: Seq<Token>,
    out: Seq<DiagView>,
    i: int,
    j: int,
)
    requires
        lint_outcome(source, path, config, file, tokens, out),
        0 <= i < source_lines(source).len(),
        file_directive(source_lines(source)[i]) matches Some(Some(rs)) && 0 <= j < rs.len(),
    ensures
        forall|k: int| 0 <= k < out.len() ==> (#[trigger] out[k]).rule != file_directive(source_lines(source)[i])->0->0[j],
{
    let lines = source_lines(source);
    let rs = file_directive(lines[i])->0->0;
    let ds = apply_severity(all_rule_diags(file, tokens, config), config) + lex_errors(tokens, config, path);
    lemma_unsuppressed_sound(ds, lines);
    lemma_file_dirs_has(lines, lines.len() as int, i);
    let fd = file_dirs(lines, lines.len() as int);
    let kk = choose|kk: int| 0 <= kk < fd.len() && #[trigger] fd[kk] == file_directive(lines[i]).unwrap();
    assert(rs[j] == rs[j]);
    assert(covers(fd[kk], rs[j]));
    assert forall|k: int| 0 <= k < out.len() implies (#[trigger] out[k]).rule != rs[j] by {
        if out[k].rule == rs[j] {
            assert(suppressed(lines, out[k].rule, out[k].span.line as int));
        }
    }
}

/// Rule names joined by commas: `a,b,c`.
pub open spec fn comma_join(ns: Seq<Seq<char>>) -> Seq<char>
    decreases ns.len(),
{
    if ns.len() == 0 {
        Seq::empty()
    } else if ns.len() == 1 {
        ns[0]
    } else {
        comma_join(ns.drop_last()) + seq![','] + ns.last()
    }
}

/// A rule name as a directive lists it: not empty, without commas or whitespace.
pub open spec fn plain_rule_name(n: Seq<char>) -> bool {
    n.len() > 0 && forall|q: int| 0 <= q < n.len() ==> n[q] != ',' && !is_ws(#[trigger] n[q])
}

proof fn lemma_trim_unchanged(s: Seq<char>)
    requires
        s.len() > 0,
        !is_ws(s[0]),
        !is_ws(s[s.len() - 1]),
    ensures
        trim(s) == s,
{
    assert(crate::text::trim_start(s) == s);
    assert(crate::text::trim_end(s) == s);
}

proof fn lemma_split_on_append(s: Seq<char>, b: Seq<char>, c: char)
    requires
        forall|q: int| 0 <= q < b.len() ==> b[q] != c,
    ensures
        split_on(s + b, c) == split_on(s, c).update(split_on(s, c).len() - 1, split_on(s, c).last() + b),
    decreases b.len(),
{
    lemma_split_on_shape(s, c);
    if b.len() == 0 {
        assert(s + b =~= s);
        assert(split_on(s, c).last() + b =~= split_on(s, c).last());
        assert(split_on(s, c).update(split_on(s, c).len() - 1, split_on(s, c).last()) =~= split_on(s, c));
    } else {
        let b1 = b.drop_last();
        lemma_split_on_append(s, b1, c);
        assert((s + b).drop_last() =~= s + b1);
        assert((s + b).last() == b.last());
        let r = split_on(s, c);
        let r1 = split_on(s + b1, c);
        assert(r1.len() == r.len());
        assert(r1.last() == r.last() + b1);
        assert(r1.last().push(b.last()) =~= r.last() + b);
        assert(r1.update(r1.len() - 1, r1.last().push(b.last())) =~= r.update(r.len() - 1, r.last() + b));
    }
}

proof fn lemma_split_on_join(ns: Seq<Seq<char>>)
    requires
        ns.len() >= 1,
        forall|j: int| 0 <= j < ns.len() ==> plain_rule_name(#[trigger] ns[j]),
    ensures
        split_on(comma_join(ns), ',') == ns,
    decreases ns.len(),
{
    let b = ns.last();
    assert(plain_rule_name(ns[ns.len() - 1]));
    if ns.len() == 1 {
        lemma_split_on_append(Seq::empty(), b, ',');
        assert(Seq::<char>::empty() + b =~= b);
        assert(split_on(Seq::<char>::empty(), ',') == seq![Seq::<char>::empty()]);
        assert(seq![Seq::<char>::empty()].update(0, Seq::<char>::empty() + b) =~= ns);
    } else {
        let a = comma_join(ns.drop_last());
        assert forall|j: int| 0 <= j < ns.drop_last().len() implies plain_rule_name(#[trigger] ns.drop_last()[j]) by {
            assert(ns.drop_last()[j] == ns[j]);
        }
        lemma_split_on_join(ns.drop_last());
        let ac = a + seq![','];
        assert(ac.drop_last() =~= a);
        assert(split_on(ac, ',') == split_on(a, ',').push(Seq::empty()));
        lemma_split_on_append(ac, b, ',');
        assert(comma_join(ns) == ac + b);
        let r = split_on(ac, ',');
        assert(r.update(r.len() - 1, r.last() + b) =~= ns.drop_last().push(b));
        assert(ns.drop_last().push(b) =~= ns);
    }
}

proof fn lemma_nonempty_trimmed_plain(ns: Seq<Seq<char>>)
    requires
        forall|j: int| 0 <= j < ns.len() ==> plain_rule_name(#[trigger] ns[j]),
    ensures
        nonempty_trimmed(ns) == ns,
    decreases ns.len(),
{
    if ns.len() > 0 {
        assert forall|j: int| 0 <= j < ns.drop_last().len() implies plain_rule_name(#[trigger] ns.drop_last()[j]) by {
            assert(ns.drop_last()[j] == ns[j]);
        }
        lemma_nonempty_trimmed_plain(ns.drop_last());
        let l = ns.last();
        assert(plain_rule_name(ns[ns.len() - 1]));
        assert(!is_ws(l[0]) && !is_ws(l[l.len() - 1]));
        lemma_trim_unchanged(l);
        assert(ns.drop_last().push(l) =~= ns);
    }
}

proof fn lemma_comma_join_ends(ns: Seq<Seq<char>>)
    requires
        ns.len() >= 1,
        forall|j: int| 0 <= j < ns.len() ==> plain_rule_name(#[trigger] ns[j]),
    ensures
        comma_join(ns).len() > 0,
        !is_ws(comma_join(ns)[comma_join(ns).len() - 1]),
    decreases ns.len(),
{
    let l = ns.last();
    assert(plain_rule_name(ns[ns.len() - 1]));
    assert(!is_ws(l[l.len() - 1]));
    if ns.len() > 1 {
        let a = comma_join(ns.drop_last());
        assert(comma_join(ns) == a + seq![','] + l);
        assert((a + seq![','] + l)[(a + seq![','] + l).len() - 1] == l[l.len() - 1]);
    }
}

/// The text `# gdstyle:ignore-file=a,b,...` of a line is read as the
/// file-level directive that lists exactly the rules `a`, `b`, ... in order.
pub proof fn law_file_directive_text_lists_its_rules(line: Seq<char>, ns: Seq<Seq<char>>)
    requires
        ns.len() >= 1,
        forall|j: int| 0 <= j < ns.len() ==> plain_rule_name(#[trigger] ns[j]),
        line == file_prefix() + seq!['='] + comma_join(ns),
    ensures
        file_directive(line) == Some(Some(ns)),
{
    reveal(file_directive);
    reveal_strlit("# gdstyle:ignore-file");
    let fp = file_prefix();
    let j = comma_join(ns);
    lemma_comma_join_ends(ns);
    assert(line[0] == '#');
    assert(line[line.len() - 1] == j[j.len() - 1]);
    lemma_trim_unchanged(line);
    assert(line.subrange(0, fp.len() as int) =~= fp);
    let rest = line.subrange(fp.len() as int, line.len() as int);
    assert(rest =~= seq!['='] + j);
    assert(rest[0] == '=');
    assert(rest[rest.len() - 1] == j[j.len() - 1]);
    lemma_trim_unchanged(rest);
    assert(rest.subrange(1, rest.len() as int) =~= j);
    lemma_split_on_join(ns);
    lemma_nonempty_trimmed_plain(ns);
    assert(directive_rules(rest) == Some(ns));
}

/// A source line `# gdstyle:ignore-file=a,b,...` keeps linting from
/// reporting any finding of any rule it lists, at any place in the list.
pub proof fn law_lint_ignores_every_rule_a_file_directive_lists(
    source: Seq<char>,
    path: Seq<char>,
    config: Config,
    file: ScriptFile,
    tokens: Seq<Token>,
    out: Seq<DiagView>,
    i: int,
    ns: Seq<Seq<char>>,
    j: int,
)
    requires
        lint_outcome(source, path, config, file, tokens, out),
        0 <= i < source_lines(source).len(),
        ns.len() >= 1,
        forall|q: int| 0 <= q < ns.len() ==> plain_rule_name(#[trigger] ns[q]),
        source_lines(source)[i] == file_prefix() + seq!['='] + comma_join(ns),
        0 <= j < ns.len(),
    ensures
        forall|k: int| 0 <= k < out.len() ==> (#[trigger] out[k]).rule != ns[j],
{
    law_file_directive_text_lists_its_rules(source_lines(source)[i], ns);
    law_file_directive_suppresses_every_listed_rule(source, path, config, file, tokens, out, i, j);
}

/// A line that is exactly `# gdstyle:ignore-file` suppresses every rule.
proof fn lemma_bare_file_directive(line: Seq<char>)
    requires
        trim(line) == file_prefix(),
    ensures
        file_directive(line) == Some(None::<Seq<Seq<char>>>),
{
    reveal(file_directive);
    let t = trim(line);
    let fp = file_prefix();
    assert(t.subrange(0, fp.len() as int) == t);
    let rest = t.subrange(fp.len() as int, t.len() as int);
    assert(rest.len() == 0);
    assert(trim(rest) =~= rest) by {
        assert(crate::text::trim_start(rest) == rest);
        assert(crate::text::trim_end(rest) == rest);
    }
}

proof fn lemma_unsuppressed_enabled(ds: Seq<DiagView>, lines: Seq<Seq<char>>, config: Config)
    requires
        all_enabled(ds, config),
    ensures
        all_enabled(unsuppressed(ds, lines), config),
    decreases ds.len(),
{
    if ds.len() > 0 {
        assert(all_enabled(ds.drop_last(), config)) by {
            assert forall|k: int| 0 <= k < ds.drop_last().len() implies enabled(config, (#[trigger] ds.drop_last()[k]).rule) by {
                assert(ds.drop_last()[k] == ds[k]);
            }
        }
        lemma_unsuppressed_enabled(ds.drop_last(), lines, config);
        assert(enabled(config, ds[ds.len() - 1].rule));
    }
}

/// Every finding lint_source can produce, before suppression, belongs to an enabled rule.
proof fn lemma_findings_enabled(file: ScriptFile, tokens: Seq<Token>, config: Config, path: Seq<char>)
    ensures
        all_enabled(apply_severity(all_rule_diags(file, tokens, config), config) + lex_errors(tokens, config, path), config),
{
    lemma_only_enabled_rules_report(file, tokens, config);
    let rd = all_rule_diags(file, tokens, config);
    let sd = apply_severity(rd, config);
    assert forall|k: int| 0 <= k < sd.len() implies enabled(config, (#[trigger] sd[k]).rule) by {
        assert(sd[k].rule == rd[k].rule);
    }
    lemma_concat_idx_of_rule(tokens.len() as int, |i: int| lex_error_diag(tokens, i, path), "syntax/lex-error"@);
    lemma_add_enabled(sd, lex_errors(tokens, config, path), config);
}

/// A copy of `d`.
fn copy_diagnostic(d: &Diagnostic) -> (r: Diagnostic)
    ensures
        r@ == d@,
{
    Diagnostic {
        rule: d.rule.clone(),
        message: d.message.clone(),
        severity: d.severity,
        span: d.span,
        file: d.file.clone(),
    }
}

/// Functions parsed from the tokens of `text` start on one of its lines and
/// end within the range of line numbers.
proof fn lemma_bodies_in_source(text: Seq<char>, tokens: Seq<Token>, ms: Seq<ClassMember>)
    requires
        forall|i: int| 0 <= i < tokens.len() ==> token_ok(text, #[trigger] tokens[i]),
        members_ok(tokens, ms),
        text.len() <= MAX_SOURCE_CHARS,
    ensures
        bodies_in_file(ms, 1 + count_char(text, '\n') as int),
{
    let total = 1 + count_char(text, '\n');
    lemma_count_char_le(text, '\n');
    assert forall|k: int| 0 <= k < flatten(ms).len() implies (#[trigger] flatten(ms)[k] matches ClassMember::Function {
        span,
        body_line_count,
        ..
    } ==> span.line + body_line_count <= usize::MAX && span.line <= total) by {
        let m = flatten(ms)[k];
        assert(crate::parser::member_ok(tokens, m));
        match m {
            ClassMember::Function { span, .. } => {
                let i = choose|i: int|
                    0 <= i < tokens.len() && #[trigger] tokens[i].span == crate::ast::member_span(m)
                        && crate::parser::member_token(m, tokens[i].kind);
                assert(token_ok(text, tokens[i]));
                if m->body_line_count > 0 {
                    let (k1, k2) = choose|k1: int, k2: int|
                        0 <= k1 < tokens.len() && 0 <= k2 < tokens.len() && (#[trigger] tokens[k1]).span.line <= (
                        #[trigger] tokens[k2]).span.line && m->body_line_count == tokens[k2].span.line
                            - tokens[k1].span.line + 1;
                    assert(token_ok(text, tokens[k1]));
                    assert(token_ok(text, tokens[k2]));
                }
            },
            _ => {},
        }
    }
}

/// Lint one GDScript source text: normalize its line endings, lex and parse
/// it, run every enabled rule, report lexer errors (`syntax/lex-error`), and
/// drop what the `# gdstyle:ignore` and `# gdstyle:ignore-file` comments suppress.
#[verifier::rlimit(60)]
#[verifier::spinoff_prover]
pub fn lint_source(source: &str, file_path: &str, config: &Config) -> (r: Vec<Diagnostic>)
    requires
        source@.len() <= MAX_SOURCE_CHARS,
    ensures
        exists|file: ScriptFile, tokens: Seq<Token>|
            #[trigger] lint_outcome(source@, file_path@, *config, file, tokens, diag_views(r@)),
        forall|k: int| 0 <= k < r@.len() ==> enabled(*config, (#[trigger] r@[k]).rule@),
        forall|k: int|
            0 <= k < r@.len() ==> !suppressed(
                source_lines(source@),
                (#[trigger] r@[k]).rule@,
                r@[k].span.line as int,
            ),
        forall|i: int, k: int|
            #![trigger file_directive(source_lines(source@)[i]), r@[k]]
            0 <= i < source_lines(source@).len() && 0 <= k < r@.len() && file_directive(
                source_lines(source@)[i],
            ) is Some ==> !covers(file_directive(source_lines(source@)[i]).unwrap(), r@[k].rule@),
        forall|i: int, k: int|
            #![trigger next_line_directive(source_lines(source@)[i]), r@[k]]
            0 <= i < source_lines(source@).len() && 0 <= k < r@.len() && next_line_directive(
                source_lines(source@)[i],
            ) is Some && r@[k].span.line == next_code_target(source_lines(source@), i + 1) ==> !covers(
                next_line_directive(source_lines(source@)[i]).unwrap(),
                r@[k].rule@,
            ),
        forall|i: int, k: int|
            #![trigger same_line_directive(source_lines(source@)[i]), r@[k]]
            0 <= i < source_lines(source@).len() && 0 <= k < r@.len() && same_line_directive(
                source_lines(source@)[i],
            ) is Some && r@[k].span.line == i + 1 ==> !covers(
                same_line_directive(source_lines(source@)[i]).unwrap(),
                r@[k].rule@,
            ),
        (exists|i: int|
            0 <= i < source_lines(source@).len() && trim(#[trigger] source_lines(source@)[i]) == file_prefix())
            ==> r@.len() == 0,
{
    let normalized = normalize_line_endings(source);
    let text = chars_of(normalized.as_str());
    let ghost tv = text@;
    proof {
        lemma_normalize_len(source@);
        lemma_split_on_shape(tv, '\n');
        lemma_count_char_le(tv, '\n');
    }
    let lines = split_lines(text.as_slice());
    let ghost ls = lines_view(lines@);
    assert(ls == source_lines(source@));
    let suppressions = parse_suppression_comments(&lines);

    let mut lexer = Lexer::new(normalized.as_str());
    let tokens = lexer.tokenize();
    proof {
        assert forall|i: int| 0 <= i < tokens@.len() implies (#[trigger] tokens@[i]).span.line < usize::MAX by {
            assert(token_ok(tv, tokens@[i]));
        }
        assert(tokens@[tokens@.len() - 1].kind is Eof);
        assert(crate::parser::eof_from(tokens@, 0));
    }
    let mut parser = Parser::new(tokens.as_slice());
    let members = parser.parse();
    let file = ScriptFile { path: file_path.to_owned(), members, lines };
    proof {
        let total = file.lines@.len() as int;
        assert(total == 1 + count_char(tv, '\n'));
        lemma_bodies_in_source(tv, tokens@, file.members@);
        assert forall|k: int| 0 <= k < file.lines@.len() implies #[trigger] file.lines@[k]@.len() <= MAX_SOURCE_CHARS by {
            assert(file.lines@[k]@ == ls[k]);
        }
    }
    let mut diagnostics = run_all_rules(&file, tokens.as_slice(), config);
    let ghost rule_part = diag_views(diagnostics@);

    // Lexer errors: a broken file must not look clean.
    if config.is_rule_enabled("syntax/lex-error") {
        let ghost f = |i: int| lex_error_diag(tokens@, i, file_path@);
        let mut i: usize = 0;
        while i < tokens.len()
            invariant
                i <= tokens@.len(),
                f == (|i: int| lex_error_diag(tokens@, i, file_path@)),
                diag_views(diagnostics@) == rule_part + concat_idx(i as int, f),
            decreases tokens@.len() - i,
        {
            let ghost before = diagnostics@;
            if let TokenKind::Error(message) = &tokens[i].kind {
                let d = Diagnostic::error("syntax/lex-error", message.clone(), tokens[i].span, file_path);
                diagnostics.push(d);
                proof {
                    lemma_diag_views_push(before, d);
                }
            }
            assert(diag_views(diagnostics@) =~= rule_part + concat_idx(i + 1, f));
            i = i + 1;
        }
    }
    let ghost all = diag_views(diagnostics@);
    assert(all == apply_severity(all_rule_diags(file, tokens@, *config), *config) + lex_errors(tokens@, *config, file_path@));

    // Drop what the suppression comments silence.
    let mut out: Vec<Diagnostic> = Vec::new();
    let mut k: usize = 0;
    while k < diagnostics.len()
        invariant
            k <= diagnostics@.len(),
            all == diag_views(diagnostics@),
            suppressions.file_view() == file_dirs(ls, ls.len() as int),
            suppressions.line_view() == line_dirs(ls, ls.len() as int),
            diag_views(out@) == unsuppressed(all.take(k as int), ls),
        decreases diagnostics@.len() - k,
    {
        let ghost before = out@;
        assert(all.take(k + 1).drop_last() == all.take(k as int));
        if !is_suppressed(&diagnostics[k], &suppressions) {
            let d = copy_diagnostic(&diagnostics[k]);
            out.push(d);
            proof {
                lemma_diag_views_push(before, d);
            }
        }
        k = k + 1;
    }
    assert(all.take(diagnostics@.len() as int) == all);
    proof {
        let outv = diag_views(out@);
        assert(lint_outcome(source@, file_path@, *config, file, tokens@, outv));
        lemma_findings_enabled(file, tokens@, *config, file_path@);
        lemma_unsuppressed_enabled(all, ls, *config);
        assert forall|q: int| 0 <= q < out@.len() implies enabled(*config, (#[trigger] out@[q]).rule@) by {
            assert(outv[q] == out@[q]@);
        }
        lemma_unsuppressed_sound(all, ls);
        assert forall|q: int| 0 <= q < out@.len() implies !suppressed(ls, (#[trigger] out@[q]).rule@, out@[q].span.line as int) by {
            assert(outv[q] == out@[q]@);
        }
        assert forall|i: int, q: int|
            #![trigger file_directive(ls[i]), out@[q]]
            0 <= i < ls.len() && 0 <= q < out@.len() && file_directive(ls[i]) is Some implies !covers(
                file_directive(ls[i]).unwrap(),
                out@[q].rule@,
            ) by {
            lemma_file_dirs_has(ls, ls.len() as int, i);
            assert(outv[q] == out@[q]@);
        }
        assert forall|i: int, q: int|
            #![trigger next_line_directive(ls[i]), out@[q]]
            0 <= i < ls.len() && 0 <= q < out@.len() && next_line_directive(ls[i]) is Some && out@[q].span.line == next_code_target(ls, i + 1) implies !covers(
                next_line_directive(ls[i]).unwrap(),
                out@[q].rule@,
            ) by {
            lemma_line_dirs_has(ls, ls.len() as int, i, next_code_target(ls, i + 1), next_line_directive(ls[i]).unwrap());
            assert(outv[q] == out@[q]@);
        }
        assert forall|i: int, q: int|
            #![trigger same_line_directive(ls[i]), out@[q]]
            0 <= i < ls.len() && 0 <= q < out@.len() && same_line_directive(ls[i]) is Some && out@[q].span.line == i + 1 implies !covers(
                same_line_directive(ls[i]).unwrap(),
                out@[q].rule@,
            ) by {
            lemma_line_dirs_has(ls, ls.len() as int, i, i + 1, same_line_directive(ls[i]).unwrap());
            assert(outv[q] == out@[q]@);
        }
        if exists|i: int| 0 <= i < ls.len() && trim(#[trigger] ls[i]) == file_prefix() {
            let i = choose|i: int| 0 <= i < ls.len() && trim(#[trigger] ls[i]) == file_prefix();
            lemma_bare_file_directive(ls[i]);
            if out@.len() > 0 {
                assert(!covers(file_directive(ls[i]).unwrap(), out@[0].rule@));
            }
        }
    }
    out
}

} // verus!
