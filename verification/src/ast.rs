use vstd::prelude::*;

use crate::token::Span;
use crate::text::{chars_eq, chars_of, seq_starts_with, starts_with};

verus! {

/// A parsed GDScript file with just enough structure for linting.
#[derive(Debug)]
pub struct ScriptFile {
    pub path: String,
    pub members: Vec<ClassMember>,
    pub lines: Vec<String>,
}

/// A member of a class (top-level or inner class).
#[derive(Debug)]
pub enum ClassMember {
    ToolAnnotation { span: Span },
    IconAnnotation { span: Span },
    StaticUnloadAnnotation { span: Span },
    /// A top-level class annotation the parser does not know by keyword
    /// (such as `@abstract`) that cannot attach to a following declaration.
    ClassAnnotation { name: String, span: Span },
    ClassNameDecl { name: String, name_span: Span, span: Span },
    ExtendsDecl { base: String, span: Span },
    DocComment { text: String, span: Span },
    Signal { name: String, name_span: Span, parameters: Vec<Parameter>, span: Span },
    Enum { name: Option<String>, name_span: Option<Span>, members: Vec<EnumMember>, span: Span },
    Constant { name: String, name_span: Span, type_hint: Option<String>, span: Span },
    StaticVariable {
        name: String,
        name_span: Span,
        type_hint: Option<String>,
        annotations: Vec<AnnotationInfo>,
        span: Span,
    },
    Variable {
        name: String,
        name_span: Span,
        type_hint: Option<String>,
        annotations: Vec<AnnotationInfo>,
        span: Span,
    },
    Function {
        name: String,
        name_span: Span,
        parameters: Vec<Parameter>,
        return_type: Option<String>,
        is_static: bool,
        annotations: Vec<AnnotationInfo>,
        body_line_count: usize,
        span: Span,
    },
    InnerClass { name: String, name_span: Span, members: Vec<ClassMember>, span: Span },
    Comment { text: String, is_doc: bool, span: Span },
    BlankLine { span: Span },
}

#[derive(Debug, Clone)]
pub struct Parameter {
    pub name: String,
    pub type_hint: Option<String>,
    pub span: Span,
}

#[derive(Debug, Clone)]
pub struct EnumMember {
    pub name: String,
    pub span: Span,
}

#[derive(Debug, Clone)]
pub struct AnnotationInfo {
    pub name: String,
    pub span: Span,
}

/// The span stored in a member, whatever its kind.
pub open spec fn member_span(m: ClassMember) -> Span {
    match m {
        ClassMember::ToolAnnotation { span } => span,
        ClassMember::IconAnnotation { span } => span,
        ClassMember::StaticUnloadAnnotation { span } => span,
        ClassMember::ClassAnnotation { span, .. } => span,
        ClassMember::ClassNameDecl { span, .. } => span,
        ClassMember::ExtendsDecl { span, .. } => span,
        ClassMember::DocComment { span, .. } => span,
        ClassMember::Signal { span, .. } => span,
        ClassMember::Enum { span, .. } => span,
        ClassMember::Constant { span, .. } => span,
        ClassMember::StaticVariable { span, .. } => span,
        ClassMember::Variable { span, .. } => span,
        ClassMember::Function { span, .. } => span,
        ClassMember::InnerClass { span, .. } => span,
        ClassMember::Comment { span, .. } => span,
        ClassMember::BlankLine { span } => span,
    }
}

/// An annotation name that marks an exported variable: `export` or `export_*`.
pub open spec fn is_export_name(n: Seq<char>) -> bool {
    n == "export"@ || seq_starts_with(n, "export_"@)
}

pub open spec fn has_export_annotation(anns: Seq<AnnotationInfo>) -> bool {
    exists|i: int| 0 <= i < anns.len() && is_export_name(#[trigger] anns[i].name@)
}

pub open spec fn has_onready_annotation(anns: Seq<AnnotationInfo>) -> bool {
    exists|i: int| 0 <= i < anns.len() && #[trigger] anns[i].name@ == "onready"@
}

/// Names of the engine callbacks that Godot's style guide places first among methods.
pub open spec fn is_virtual_method_name(n: Seq<char>) -> bool {
    ||| n == "_init"@
    ||| n == "_enter_tree"@
    ||| n == "_exit_tree"@
    ||| n == "_ready"@
    ||| n == "_process"@
    ||| n == "_physics_process"@
    ||| n == "_input"@
    ||| n == "_unhandled_input"@
    ||| n == "_unhandled_key_input"@
    ||| n == "_notification"@
    ||| n == "_draw"@
    ||| n == "_gui_input"@
    ||| n == "_get_configuration_warnings"@
    ||| n == "_static_init"@
}

/// Where a member belongs in the canonical class layout; lower comes first.
/// Comments and blank lines take no part in ordering (`usize::MAX`).
pub open spec fn spec_ordering_category(m: ClassMember) -> usize {
    match m {
        ClassMember::ToolAnnotation { .. } => 0,
        ClassMember::IconAnnotation { .. } => 1,
        ClassMember::StaticUnloadAnnotation { .. } => 0,
        ClassMember::ClassAnnotation { .. } => 0,
        ClassMember::ClassNameDecl { .. } => 2,
        ClassMember::ExtendsDecl { .. } => 3,
        ClassMember::DocComment { .. } => 4,
        ClassMember::Signal { .. } => 5,
        ClassMember::Enum { .. } => 6,
        ClassMember::Constant { .. } => 7,
        ClassMember::StaticVariable { .. } => 8,
        ClassMember::Variable { annotations, .. } => {
            if has_export_annotation(annotations@) {
                9
            } else if has_onready_annotation(annotations@) {
                11
            } else {
                10
            }
        },
        ClassMember::Function { name, .. } => {
            if is_virtual_method_name(name@) {
                12
            } else {
                13
            }
        },
        ClassMember::InnerClass { .. } => 14,
        ClassMember::Comment { .. } => usize::MAX,
        ClassMember::BlankLine { .. } => usize::MAX,
    }
}

/// The human-readable name of a member's category.
pub open spec fn spec_category_name(m: ClassMember) -> Seq<char> {
    match m {
        ClassMember::ToolAnnotation { .. } => "script annotation"@,
        ClassMember::IconAnnotation { .. } => "script annotation"@,
        ClassMember::StaticUnloadAnnotation { .. } => "script annotation"@,
        ClassMember::ClassAnnotation { .. } => "script annotation"@,
        ClassMember::ClassNameDecl { .. } => "class_name declaration"@,
        ClassMember::ExtendsDecl { .. } => "extends declaration"@,
        ClassMember::DocComment { .. } => "documentation comment"@,
        ClassMember::Signal { .. } => "signal declaration"@,
        ClassMember::Enum { .. } => "enum declaration"@,
        ClassMember::Constant { .. } => "constant declaration"@,
        ClassMember::StaticVariable { .. } => "static variable"@,
        ClassMember::Variable { annotations, .. } => {
            if has_export_annotation(annotations@) {
                "@export variable"@
            } else if has_onready_annotation(annotations@) {
                "@onready variable"@
            } else {
                "variable declaration"@
            }
        },
        ClassMember::Function { is_static, name, .. } => {
            if is_static {
                "static method"@
            } else if is_virtual_method_name(name@) {
                "virtual/override method"@
            } else {
                "method"@
            }
        },
        ClassMember::InnerClass { .. } => "inner class"@,
        ClassMember::Comment { .. } => "comment"@,
        ClassMember::BlankLine { .. } => "blank line"@,
    }
}

/// The last line a member occupies: a function runs to the end of its body,
/// an inner class to the end of its last member.
pub open spec fn spec_end_line(m: ClassMember) -> int
    decreases m,
{
    match m {
        ClassMember::Function { body_line_count, span, .. } => span.line + body_line_count,
        ClassMember::InnerClass { members, span, .. } => {
            if members@.len() > 0 {
                spec_end_line(members@[members@.len() - 1])
            } else {
                span.line as int
            }
        },
        _ => member_span(m).line as int,
    }
}

/// Every member of `ms` in source order, each inner class followed at once
/// by its own members (recursively).
pub open spec fn flatten(ms: Seq<ClassMember>) -> Seq<ClassMember>
    decreases ms,
{
    if ms.len() == 0 {
        Seq::empty()
    } else {
        let last = ms[ms.len() - 1];
        let init = ms.subrange(0, ms.len() - 1);
        let inner = match last {
            ClassMember::InnerClass { members, .. } => flatten(members@),
            _ => Seq::empty(),
        };
        flatten(init) + seq![last] + inner
    }
}

pub open spec fn deref_members(s: Seq<&ClassMember>) -> Seq<ClassMember> {
    s.map_values(|r: &ClassMember| *r)
}

fn walk_members<'a>(members: &'a [ClassMember], out: &mut Vec<&'a ClassMember>)
    ensures
        deref_members(final(out)@) == deref_members(old(out)@) + flatten(members@),
    decreases members@,
{
    let mut i: usize = 0;
    while i < members.len()
        invariant
            i <= members@.len(),
            deref_members(out@) == deref_members(old(out)@) + flatten(members@.subrange(0, i as int)),
        decreases members@.len() - i,
    {
        let m = &members[i];
        let ghost before = out@;
        out.push(m);
        assert(deref_members(out@) == deref_members(before).push(*m));
        if let ClassMember::InnerClass { members: inner, .. } = m {
            assert(decreases_to!(members@ => inner@));
            walk_members(inner.as_slice(), out);
        }
        assert(members@.subrange(0, i + 1).subrange(0, i as int) == members@.subrange(0, i as int));
        i = i + 1;
    }
    assert(members@.subrange(0, members@.len() as int) == members@);
}

/// Every member in source order, recursing into inner classes: each inner
/// class is followed at once by its own members.
pub fn for_each_member<'a>(members: &'a [ClassMember]) -> (visited: Vec<&'a ClassMember>)
    ensures
        deref_members(visited@) == flatten(members@),
{
    let mut out: Vec<&'a ClassMember> = Vec::new();
    walk_members(members, &mut out);
    assert(deref_members(Seq::<&ClassMember>::empty()) == Seq::<ClassMember>::empty());
    out
}

impl ClassMember {
    pub fn span(&self) -> (s: Span)
        ensures
            s == member_span(*self),
    {
        match self {
            ClassMember::ToolAnnotation { span }
            | ClassMember::IconAnnotation { span }
            | ClassMember::StaticUnloadAnnotation { span }
            | ClassMember::ClassAnnotation { span, .. }
            | ClassMember::ClassNameDecl { span, .. }
            | ClassMember::ExtendsDecl { span, .. }
            | ClassMember::DocComment { span, .. }
            | ClassMember::Signal { span, .. }
            | ClassMember::Enum { span, .. }
            | ClassMember::Constant { span, .. }
            | ClassMember::StaticVariable { span, .. }
            | ClassMember::Variable { span, .. }
            | ClassMember::Function { span, .. }
            | ClassMember::InnerClass { span, .. }
            | ClassMember::Comment { span, .. }
            | ClassMember::BlankLine { span } => *span,
        }
    }
}


fn lit_is(t: &[char], lit: &str) -> (r: bool)
    ensures
        r == (t@ == lit@),
{
    let l = chars_of(lit);
    chars_eq(t, l.as_slice())
}

/// Whether `name` is one of Godot's virtual engine callbacks.
fn is_virtual_method(name: &str) -> (r: bool)
    ensures
        r == is_virtual_method_name(name@),
{
    let n = chars_of(name);
    let t = n.as_slice();
    lit_is(t, "_init") || lit_is(t, "_enter_tree") || lit_is(t, "_exit_tree") || lit_is(t, "_ready")
        || lit_is(t, "_process") || lit_is(t, "_physics_process") || lit_is(t, "_input") || lit_is(
        t,
        "_unhandled_input",
    ) || lit_is(t, "_unhandled_key_input") || lit_is(t, "_notification") || lit_is(t, "_draw")
        || lit_is(t, "_gui_input") || lit_is(t, "_get_configuration_warnings") || lit_is(
        t,
        "_static_init",
    )
}

fn any_export(anns: &Vec<AnnotationInfo>) -> (r: bool)
    ensures
        r == has_export_annotation(anns@),
{
    let prefix = chars_of("export_");
    let mut i: usize = 0;
    while i < anns.len()
        invariant
            i <= anns@.len(),
            prefix@ == "export_"@,
            forall|k: int| 0 <= k < i ==> !is_export_name(#[trigger] anns@[k].name@),
        decreases anns@.len() - i,
    {
        let n = chars_of(anns[i].name.as_str());
        if lit_is(n.as_slice(), "export") || starts_with(n.as_slice(), prefix.as_slice()) {
            assert(is_export_name(anns@[i as int].name@));
            return true;
        }
        i = i + 1;
    }
    false
}

fn any_onready(anns: &Vec<AnnotationInfo>) -> (r: bool)
    ensures
        r == has_onready_annotation(anns@),
{
    let mut i: usize = 0;
    while i < anns.len()
        invariant
            i <= anns@.len(),
            forall|k: int| 0 <= k < i ==> #[trigger] anns@[k].name@ != "onready"@,
        decreases anns@.len() - i,
    {
        let n = chars_of(anns[i].name.as_str());
        if lit_is(n.as_slice(), "onready") {
            assert(anns@[i as int].name@ == "onready"@);
            return true;
        }
        i = i + 1;
    }
    false
}

impl ClassMember {
    /// Where the member belongs in the canonical class layout; lower values
    /// come earlier in the file.
    pub fn ordering_category(&self) -> (c: usize)
        ensures
            c == spec_ordering_category(*self),
    {
        match self {
            ClassMember::ToolAnnotation { .. }
            | ClassMember::StaticUnloadAnnotation { .. }
            | ClassMember::ClassAnnotation { .. } => 0,
            ClassMember::IconAnnotation { .. } => 1,
            ClassMember::ClassNameDecl { .. } => 2,
            ClassMember::ExtendsDecl { .. } => 3,
            ClassMember::DocComment { .. } => 4,
            ClassMember::Signal { .. } => 5,
            ClassMember::Enum { .. } => 6,
            ClassMember::Constant { .. } => 7,
            ClassMember::StaticVariable { .. } => 8,
            ClassMember::Variable { annotations, .. } => {
                if any_export(annotations) {
                    9
                } else if any_onready(annotations) {
                    11
                } else {
                    10
                }
            },
            ClassMember::Function { name, .. } => {
                if is_virtual_method(name.as_str()) {
                    12
                } else {
                    13
                }
            },
            ClassMember::InnerClass { .. } => 14,
            ClassMember::Comment { .. } | ClassMember::BlankLine { .. } => usize::MAX,
        }
    }

    /// The last line (1-based) the member occupies: for a function the end of
    /// its body, for an inner class the end of its last member.
    pub fn end_line(&self) -> (l: usize)
        requires
            spec_end_line(*self) <= usize::MAX,
        ensures
            l == spec_end_line(*self),
        decreases *self,
    {
        match self {
            ClassMember::Function { body_line_count, span, .. } => span.line + *body_line_count,
            ClassMember::InnerClass { members, span, .. } => {
                if members.len() > 0 {
                    let last = &members[members.len() - 1];
                    assert(decreases_to!(*self => members@[members@.len() - 1]));
                    last.end_line()
                } else {
                    span.line
                }
            },
            _ => self.span().line,
        }
    }

    /// A human-readable name of the member's category, for diagnostics.
    pub fn category_name(&self) -> (n: &'static str)
        ensures
            n@ == spec_category_name(*self),
    {
        match self {
            ClassMember::ToolAnnotation { .. }
            | ClassMember::IconAnnotation { .. }
            | ClassMember::StaticUnloadAnnotation { .. }
            | ClassMember::ClassAnnotation { .. } => "script annotation",
            ClassMember::ClassNameDecl { .. } => "class_name declaration",
            ClassMember::ExtendsDecl { .. } => "extends declaration",
            ClassMember::DocComment { .. } => "documentation comment",
            ClassMember::Signal { .. } => "signal declaration",
            ClassMember::Enum { .. } => "enum declaration",
            ClassMember::Constant { .. } => "constant declaration",
            ClassMember::StaticVariable { .. } => "static variable",
            ClassMember::Variable { annotations, .. } => {
                if any_export(annotations) {
                    "@export variable"
                } else if any_onready(annotations) {
                    "@onready variable"
                } else {
                    "variable declaration"
                }
            },
            ClassMember::Function { is_static, name, .. } => {
                if *is_static {
                    "static method"
                } else if is_virtual_method(name.as_str()) {
                    "virtual/override method"
                } else {
                    "method"
                }
            },
            ClassMember::InnerClass { .. } => "inner class",
            ClassMember::Comment { .. } => "comment",
            ClassMember::BlankLine { .. } => "blank line",
        }
    }
}

} // verus!
