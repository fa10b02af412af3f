//! The semantic analysis of a bulloak tree.
use vstd::prelude::*;

use super::ast::{self, asts_view, lemma_asts_view, Ast, SpecAst};
use super::parser::{ast_counted, asts_counted};
use crate::error::{formattable, formatted, Formatter};
use crate::span::{counted_span, Span};
use crate::text::push_str;
use crate::utils::{decimal, decimal_of, lower_first_letter, modifier_name, sanitize, to_pascal_case};

verus! {

/// The type of an error found by the semantic analysis.
#[derive(Clone, Debug, PartialEq, Eq)]
pub enum ErrorKind {
    /// Found two conditions or top-level actions with the same identifier;
    /// the spans of all of them.
    IdentifierDuplicated(Vec<Span>),
    /// Found a condition with no children.
    ConditionEmpty,
    /// Found an unexpected node.
    NodeUnexpected,
    /// Found no rules to emit.
    TreeEmpty,
}

/// An error found by the semantic analysis.
#[derive(Clone, Debug, PartialEq, Eq)]
pub struct Error {
    /// The kind of error.
    pub kind: ErrorKind,
    /// The text of the tree.
    pub text: String,
    /// The span of this error.
    pub span: Span,
}

/// The errors that the semantic analysis found.
#[derive(Clone, Debug, PartialEq, Eq)]
pub struct Errors(pub Vec<Error>);

/// The kind of a semantic error as a mathematical value.
pub enum SpecKind {
    /// See `ErrorKind::IdentifierDuplicated`.
    IdentifierDuplicated(Seq<Span>),
    /// See `ErrorKind::ConditionEmpty`.
    ConditionEmpty,
    /// See `ErrorKind::NodeUnexpected`.
    NodeUnexpected,
    /// See `ErrorKind::TreeEmpty`.
    TreeEmpty,
}

/// A semantic error as a mathematical value (the text is the analyzer's).
pub struct SpecError {
    /// The kind of error.
    pub kind: SpecKind,
    /// The span of the error.
    pub span: Span,
}

impl View for ErrorKind {
    type V = SpecKind;

    open spec fn view(&self) -> SpecKind {
        match self {
            ErrorKind::IdentifierDuplicated(v) => SpecKind::IdentifierDuplicated(v@),
            ErrorKind::ConditionEmpty => SpecKind::ConditionEmpty,
            ErrorKind::NodeUnexpected => SpecKind::NodeUnexpected,
            ErrorKind::TreeEmpty => SpecKind::TreeEmpty,
        }
    }
}

impl View for Error {
    type V = SpecError;

    open spec fn view(&self) -> SpecError {
        SpecError { kind: self.kind@, span: self.span }
    }
}

/// The views of a sequence of errors.
pub open spec fn errors_view(v: Seq<Error>) -> Seq<SpecError> {
    Seq::new(v.len(), |i: int| v[i]@)
}

impl Error {
    /// Creates an error.
    pub fn new(kind: ErrorKind, text: String, span: Span) -> (res: Self)
        ensures
            res.kind == kind,
            res.text == text,
            res.span == span,
    {
        Error { kind, text, span }
    }

    /// The type of this error.
    pub fn kind(&self) -> (res: &ErrorKind)
        ensures
            *res == self.kind,
    {
        &self.kind
    }

    /// The text in which this error occurred.
    pub fn text(&self) -> (res: &str)
        ensures
            res@ == self.text@,
    {
        self.text.as_str()
    }

    /// The span at which this error occurred.
    pub fn span(&self) -> (res: &Span)
        ensures
            *res == self.span,
    {
        &self.span
    }
}

/// The lines where the spans start, in decimal, separated by commas.
pub open spec fn lines_list(spans: Seq<Span>) -> Seq<char>
    decreases spans.len(),
{
    if spans.len() == 0 {
        Seq::empty()
    } else if spans.len() == 1 {
        decimal_of(spans[0].start.line as nat)
    } else {
        lines_list(spans.drop_last()) + ", "@ + decimal_of(spans.last().start.line as nat)
    }
}

/// The message that describes a kind of semantic error.
pub open spec fn message_of(k: SpecKind) -> Seq<char> {
    match k {
        SpecKind::IdentifierDuplicated(spans) => "found an identifier more than once in lines: "@
            + lines_list(spans),
        SpecKind::ConditionEmpty => "found a condition with no children"@,
        SpecKind::NodeUnexpected => "unexpected child node"@,
        SpecKind::TreeEmpty => "no rules where defined"@,
    }
}

/// The reports of a sequence of errors, one after the other.
pub open spec fn reports(text: Seq<Seq<char>>, errors: Seq<SpecError>) -> Seq<char>
    decreases errors.len(),
{
    if errors.len() == 0 || text.len() < errors.len() {
        Seq::empty()
    } else {
        reports(text.drop_last(), errors.drop_last()) + formatted(
            text.last(),
            message_of(errors.last().kind),
            errors.last().span,
        )
    }
}

/// The lines where the spans start, separated by commas.
fn format_spans(spans: &Vec<Span>) -> (res: String)
    ensures
        res@ == lines_list(spans@),
{
    let mut res = String::new();
    let mut i: usize = 0;
    while i < spans.len()
        invariant
            i <= spans@.len(),
            res@ == lines_list(spans@.take(i as int)),
        decreases spans@.len() - i,
    {
        assert(spans@.take(i + 1).drop_last() =~= spans@.take(i as int));
        if i > 0 {
            push_str(&mut res, ", ");
        }
        let d = decimal(spans[i].start.line);
        push_str(&mut res, d.as_str());
        i = i + 1;
    }
    assert(spans@.take(spans@.len() as int) =~= spans@);
    res
}

impl ErrorKind {
    /// The message that describes this kind of error.
    pub fn message(&self) -> (res: String)
        ensures
            res@ == message_of(self@),
    {
        match self {
            ErrorKind::IdentifierDuplicated(spans) => {
                let mut s = String::new();
                push_str(&mut s, "found an identifier more than once in lines: ");
                let l = format_spans(spans);
                push_str(&mut s, l.as_str());
                s
            },
            ErrorKind::ConditionEmpty => "found a condition with no children".to_string(),
            ErrorKind::NodeUnexpected => "unexpected child node".to_string(),
            ErrorKind::TreeEmpty => "no rules where defined".to_string(),
        }
    }
}

impl Error {
    /// The human readable report of this error.
    pub fn to_string(&self) -> (res: String)
        requires
            formattable(self.text@, self.span),
        ensures
            res@ == formatted(self.text@, message_of(self.kind@), self.span),
    {
        let m = self.kind.message();
        Formatter::new(self.text.as_str(), m.as_str(), &self.span).to_string()
    }
}

/// The texts of a sequence of errors.
pub open spec fn texts_of(v: Seq<Error>) -> Seq<Seq<char>> {
    Seq::new(v.len(), |i: int| v[i].text@)
}

impl Errors {
    /// The reports of all the errors, one after the other.
    pub fn to_string(&self) -> (res: String)
        requires
            forall|i: int| 0 <= i < self.0@.len() ==> formattable(#[trigger] self.0@[i].text@, self.0@[i].span),
        ensures
            res@ == reports(texts_of(self.0@), errors_view(self.0@)),
    {
        let v = &self.0;
        let mut res = String::new();
        let mut i: usize = 0;
        while i < v.len()
            invariant
                i <= v@.len(),
                forall|j: int| 0 <= j < v@.len() ==> formattable(#[trigger] v@[j].text@, v@[j].span),
                res@ == reports(texts_of(v@).take(i as int), errors_view(v@).take(i as int)),
            decreases v@.len() - i,
        {
            assert(texts_of(v@).take(i + 1).drop_last() =~= texts_of(v@).take(i as int));
            assert(errors_view(v@).take(i + 1).drop_last() =~= errors_view(v@).take(i as int));
            let t = v[i].to_string();
            push_str(&mut res, t.as_str());
            i = i + 1;
        }
        assert(texts_of(v@).take(v@.len() as int) =~= texts_of(v@));
        assert(errors_view(v@).take(v@.len() as int) =~= errors_view(v@));
        res
    }
}

/// The identifiers seen so far, each with the spans where it occurred, in
/// the order in which they were first seen.
pub type Identifiers = Seq<(Seq<char>, Seq<Span>)>;

/// The state of the analysis: the text, the errors found so far and the
/// identifiers seen so far.
pub struct AnalyzerState {
    /// The text of the tree.
    pub text: Seq<char>,
    /// The errors found so far.
    pub errors: Seq<SpecError>,
    /// The identifiers seen so far.
    pub ids: Identifiers,
}

/// The index at which `name` is recorded in `ids`, if it is.
pub open spec fn index_of(ids: Identifiers, name: Seq<char>) -> Option<int>
    decreases ids.len(),
{
    if ids.len() == 0 {
        None
    } else if ids.last().0 == name {
        Some(ids.len() - 1)
    } else {
        index_of(ids.drop_last(), name)
    }
}

/// `ids` with one more occurrence of `name` at `span`.
pub open spec fn record(ids: Identifiers, name: Seq<char>, span: Span) -> Identifiers {
    match index_of(ids, name) {
        Some(i) => ids.update(i, (name, ids[i].1.push(span))),
        None => ids.push((name, seq![span])),
    }
}

/// `st` with one more error.
pub open spec fn add_error(st: AnalyzerState, kind: SpecKind, span: Span) -> AnalyzerState {
    AnalyzerState { errors: st.errors.push(SpecError { kind, span }), ..st }
}

/// The analysis of a node that is a child of a condition (or analyzed on
/// its own): a condition must have children and its identifier is
/// recorded; actions pass; anything else is unexpected.
pub open spec fn analyze_in_condition(st: AnalyzerState, a: SpecAst) -> AnalyzerState
    decreases a,
{
    match a {
        SpecAst::Condition { title, span, children } => {
            let st1 = if children.len() == 0 {
                add_error(st, SpecKind::ConditionEmpty, span)
            } else {
                st
            };
            let st2 = AnalyzerState { ids: record(st1.ids, modifier_name(title), span), ..st1 };
            analyze_condition_children(st2, children)
        },
        SpecAst::Action { .. } => st,
        _ => add_error(st, SpecKind::NodeUnexpected, a.span()),
    }
}

/// The analysis of the children of a condition, in order.
pub open spec fn analyze_condition_children(st: AnalyzerState, kids: Seq<SpecAst>) -> AnalyzerState
    decreases kids,
{
    if kids.len() == 0 {
        st
    } else {
        analyze_in_condition(analyze_condition_children(st, kids.drop_last()), kids.last())
    }
}

/// The analysis of the children of a root: conditions as above; top-level
/// actions have their identifiers recorded; anything else is unexpected.
pub open spec fn analyze_root_children(st: AnalyzerState, kids: Seq<SpecAst>) -> AnalyzerState
    decreases kids,
{
    if kids.len() == 0 {
        st
    } else {
        let st1 = analyze_root_children(st, kids.drop_last());
        let a = kids.last();
        match a {
            SpecAst::Condition { .. } => analyze_in_condition(st1, a),
            SpecAst::Action { title, span, .. } => AnalyzerState {
                ids: record(st1.ids, modifier_name(title), span),
                ..st1
            },
            _ => add_error(st1, SpecKind::NodeUnexpected, a.span()),
        }
    }
}

/// The analysis of one node.
pub open spec fn analyze_node(st: AnalyzerState, a: SpecAst) -> AnalyzerState {
    match a {
        SpecAst::Root { span, children, .. } => {
            let st1 = if children.len() == 0 {
                add_error(st, SpecKind::TreeEmpty, Span { start: span.end, end: span.end })
            } else {
                st
            };
            analyze_root_children(st1, children)
        },
        SpecAst::Condition { .. } => analyze_in_condition(st, a),
        _ => st,
    }
}

/// Identifiers whose spans are counted from one.
pub open spec fn ids_counted(ids: Identifiers) -> bool {
    forall|i: int, j: int|
        0 <= i < ids.len() && 0 <= j < ids[i].1.len() ==> counted_span(#[trigger] ids[i].1[j])
}

/// States whose errors and identifiers have spans counted from one.
pub open spec fn state_counted(st: AnalyzerState) -> bool {
    &&& forall|i: int| 0 <= i < st.errors.len() ==> counted_span(#[trigger] st.errors[i].span)
    &&& ids_counted(st.ids)
}

proof fn lemma_index_of_bounds(ids: Identifiers, name: Seq<char>)
    ensures
        index_of(ids, name) matches Some(i) ==> 0 <= i < ids.len(),
    decreases ids.len(),
{
    if ids.len() > 0 && ids.last().0 != name {
        lemma_index_of_bounds(ids.drop_last(), name);
    }
}

proof fn lemma_record_counted(ids: Identifiers, name: Seq<char>, span: Span)
    requires
        ids_counted(ids),
        counted_span(span),
    ensures
        ids_counted(record(ids, name, span)),
{
    lemma_index_of_bounds(ids, name);
    let r = record(ids, name, span);
    assert forall|i: int, j: int| 0 <= i < r.len() && 0 <= j < r[i].1.len() implies counted_span(#[trigger] r[i].1[j]) by {
        match index_of(ids, name) {
            Some(k) => {
                if i == k && j == ids[k].1.len() {
                } else if i == k {
                    assert(r[i].1[j] == ids[k].1[j]);
                } else {
                    assert(r[i] == ids[i]);
                }
            },
            None => {
                if i < ids.len() {
                    assert(r[i] == ids[i]);
                }
            },
        }
    }
}

proof fn lemma_add_error_counted(st: AnalyzerState, kind: SpecKind, span: Span)
    requires
        state_counted(st),
        counted_span(span),
    ensures
        state_counted(add_error(st, kind, span)),
{
    let r = add_error(st, kind, span);
    assert forall|i: int| 0 <= i < r.errors.len() implies counted_span(#[trigger] r.errors[i].span) by {
        if i < st.errors.len() {
            assert(r.errors[i] == st.errors[i]);
        }
    }
}

proof fn lemma_in_condition_counted(st: AnalyzerState, a: SpecAst)
    requires
        state_counted(st),
        ast_counted(a),
    ensures
        state_counted(analyze_in_condition(st, a)),
    decreases a,
{
    match a {
        SpecAst::Condition { title, span, children } => {
            let st1 = if children.len() == 0 {
                lemma_add_error_counted(st, SpecKind::ConditionEmpty, span);
                add_error(st, SpecKind::ConditionEmpty, span)
            } else {
                st
            };
            lemma_record_counted(st1.ids, modifier_name(title), span);
            let st2 = AnalyzerState { ids: record(st1.ids, modifier_name(title), span), ..st1 };
            lemma_condition_children_counted(st2, children);
        },
        SpecAst::Action { .. } => {},
        _ => lemma_add_error_counted(st, SpecKind::NodeUnexpected, a.span()),
    }
}

proof fn lemma_condition_children_counted(st: AnalyzerState, kids: Seq<SpecAst>)
    requires
        state_counted(st),
        asts_counted(kids),
    ensures
        state_counted(analyze_condition_children(st, kids)),
    decreases kids,
{
    if kids.len() > 0 {
        lemma_condition_children_counted(st, kids.drop_last());
        lemma_in_condition_counted(analyze_condition_children(st, kids.drop_last()), kids.last());
    }
}

proof fn lemma_root_children_counted(st: AnalyzerState, kids: Seq<SpecAst>)
    requires
        state_counted(st),
        asts_counted(kids),
    ensures
        state_counted(analyze_root_children(st, kids)),
    decreases kids.len(),
{
    if kids.len() > 0 {
        lemma_root_children_counted(st, kids.drop_last());
        let st1 = analyze_root_children(st, kids.drop_last());
        let a = kids.last();
        match a {
            SpecAst::Condition { .. } => lemma_in_condition_counted(st1, a),
            SpecAst::Action { title, span, .. } => lemma_record_counted(st1.ids, modifier_name(title), span),
            _ => lemma_add_error_counted(st1, SpecKind::NodeUnexpected, a.span()),
        }
    }
}

proof fn lemma_duplicates_counted(ids: Identifiers)
    requires
        ids_counted(ids),
    ensures
        forall|i: int| 0 <= i < duplicate_errors(ids).len() ==> counted_span(#[trigger] duplicate_errors(ids)[i].span),
    decreases ids.len(),
{
    if ids.len() > 0 {
        assert(ids_counted(ids.drop_last())) by {
            assert forall|i: int, j: int| 0 <= i < ids.drop_last().len() && 0 <= j < ids.drop_last()[i].1.len() implies counted_span(#[trigger] ids.drop_last()[i].1[j]) by {
                assert(ids.drop_last()[i] == ids[i]);
            }
        }
        lemma_duplicates_counted(ids.drop_last());
        let spans = ids.last().1;
        if spans.len() > 1 {
            assert(counted_span(ids[ids.len() - 1].1[0]));
        }
    }
}

/// The errors of analyzing a tree whose spans are counted from one have
/// spans counted from one.
pub proof fn lemma_analyze_counted(st: AnalyzerState, a: SpecAst)
    requires
        state_counted(st),
        ast_counted(a),
    ensures
        state_counted(analyze_state(st, a)),
{
    let st1 = analyze_node(st, a);
    match a {
        SpecAst::Root { span, children, .. } => {
            let s0 = if children.len() == 0 {
                lemma_add_error_counted(st, SpecKind::TreeEmpty, Span { start: span.end, end: span.end });
                add_error(st, SpecKind::TreeEmpty, Span { start: span.end, end: span.end })
            } else {
                st
            };
            lemma_root_children_counted(s0, children);
        },
        SpecAst::Condition { .. } => lemma_in_condition_counted(st, a),
        _ => {},
    }
    lemma_duplicates_counted(st1.ids);
    let r = analyze_state(st, a);
    let d = duplicate_errors(st1.ids);
    assert forall|i: int| 0 <= i < r.errors.len() implies counted_span(#[trigger] r.errors[i].span) by {
        if i < st1.errors.len() {
            assert(r.errors[i] == st1.errors[i]);
        } else {
            assert(r.errors[i] == d[i - st1.errors.len()]);
        }
    }
}

/// Whether `name` is recorded in `ids`.
pub open spec fn named(ids: Identifiers, name: Seq<char>) -> bool {
    exists|k: int| 0 <= k < ids.len() && (#[trigger] ids[k]).0 == name
}

/// Whether some identifier of `ids` occurred more than once.
pub open spec fn has_duplicate(ids: Identifiers) -> bool {
    exists|k: int| 0 <= k < ids.len() && (#[trigger] ids[k]).1.len() > 1
}

/// Whether every identifier of `ids` occurred at least once.
pub open spec fn occurred(ids: Identifiers) -> bool {
    forall|k: int| 0 <= k < ids.len() ==> (#[trigger] ids[k]).1.len() > 0
}

/// `b` extends `a`: every identifier of `a` keeps its place and its name,
/// with at least as many occurrences.
pub open spec fn extends(a: Identifiers, b: Identifiers) -> bool {
    &&& a.len() <= b.len()
    &&& forall|k: int| 0 <= k < a.len() ==> (#[trigger] b[k]).0 == a[k].0 && b[k].1.len() >= a[k].1.len()
}

/// The identifier that a child of a root stands for, if it stands for one.
pub open spec fn child_name(a: SpecAst) -> Option<Seq<char>> {
    match a {
        SpecAst::Condition { title, .. } => Some(modifier_name(title)),
        SpecAst::Action { title, .. } => Some(modifier_name(title)),
        _ => None,
    }
}

proof fn lemma_index_of_found(ids: Identifiers, name: Seq<char>)
    ensures
        index_of(ids, name) matches Some(i) ==> 0 <= i < ids.len() && ids[i].0 == name,
        index_of(ids, name) is None ==> !named(ids, name),
    decreases ids.len(),
{
    if ids.len() > 0 && ids.last().0 != name {
        let dl = ids.drop_last();
        lemma_index_of_found(dl, name);
        if index_of(ids, name) is None {
            assert forall|k: int| 0 <= k < ids.len() implies (#[trigger] ids[k]).0 != name by {
                if k < dl.len() {
                    assert(dl[k] == ids[k]);
                    assert(!(0 <= k < dl.len() && dl[k].0 == name));
                }
            }
        }
    }
}

proof fn lemma_extends_keeps(a: Identifiers, b: Identifiers, name: Seq<char>)
    requires
        extends(a, b),
    ensures
        named(a, name) ==> named(b, name),
        has_duplicate(a) ==> has_duplicate(b),
{
    if named(a, name) {
        let k = choose|k: int| 0 <= k < a.len() && (#[trigger] a[k]).0 == name;
        assert(b[k].0 == name);
    }
    if has_duplicate(a) {
        let k = choose|k: int| 0 <= k < a.len() && (#[trigger] a[k]).1.len() > 1;
        assert(b[k].1.len() > 1);
    }
}

proof fn lemma_extends_trans(a: Identifiers, b: Identifiers, c: Identifiers)
    requires
        extends(a, b),
        extends(b, c),
    ensures
        extends(a, c),
{
    assert forall|k: int| 0 <= k < a.len() implies (#[trigger] c[k]).0 == a[k].0 && c[k].1.len() >= a[k].1.len() by {
        assert(b[k].0 == a[k].0);
    }
}

proof fn lemma_record_extends(ids: Identifiers, name: Seq<char>, span: Span)
    requires
        occurred(ids),
    ensures
        extends(ids, record(ids, name, span)),
        occurred(record(ids, name, span)),
        named(record(ids, name, span), name),
        named(ids, name) ==> has_duplicate(record(ids, name, span)),
{
    lemma_index_of_found(ids, name);
    let r = record(ids, name, span);
    match index_of(ids, name) {
        Some(i) => {
            assert(r[i].1.len() == ids[i].1.len() + 1);
            assert forall|k: int| 0 <= k < ids.len() implies (#[trigger] r[k]).0 == ids[k].0 && r[k].1.len() >= ids[k].1.len() by {
                if k != i {
                    assert(r[k] == ids[k]);
                }
            }
            assert forall|k: int| 0 <= k < r.len() implies (#[trigger] r[k]).1.len() > 0 by {
                if k != i {
                    assert(r[k] == ids[k]);
                }
            }
            assert(r[i].0 == name);
            assert(ids[i].1.len() > 0);
            assert(r[i].1.len() > 1);
        },
        None => {
            assert forall|k: int| 0 <= k < ids.len() implies (#[trigger] r[k]).0 == ids[k].0 && r[k].1.len() >= ids[k].1.len() by {
                assert(r[k] == ids[k]);
            }
            assert forall|k: int| 0 <= k < r.len() implies (#[trigger] r[k]).1.len() > 0 by {
                if k < ids.len() {
                    assert(r[k] == ids[k]);
                }
            }
            assert(r[ids.len() as int].0 == name);
        },
    }
}

proof fn lemma_in_condition_extends(st: AnalyzerState, a: SpecAst)
    requires
        occurred(st.ids),
    ensures
        extends(st.ids, analyze_in_condition(st, a).ids),
        occurred(analyze_in_condition(st, a).ids),
        a matches SpecAst::Condition { title, .. } ==> named(analyze_in_condition(st, a).ids, modifier_name(title))
            && (named(st.ids, modifier_name(title)) ==> has_duplicate(analyze_in_condition(st, a).ids)),
    decreases a,
{
    match a {
        SpecAst::Condition { title, span, children } => {
            let st1 = if children.len() == 0 {
                add_error(st, SpecKind::ConditionEmpty, span)
            } else {
                st
            };
            let n = modifier_name(title);
            lemma_record_extends(st1.ids, n, span);
            let st2 = AnalyzerState { ids: record(st1.ids, n, span), ..st1 };
            lemma_condition_children_extends(st2, children);
            let r = analyze_condition_children(st2, children);
            lemma_extends_trans(st.ids, st2.ids, r.ids);
            lemma_extends_keeps(st2.ids, r.ids, n);
        },
        _ => {},
    }
}

proof fn lemma_condition_children_extends(st: AnalyzerState, kids: Seq<SpecAst>)
    requires
        occurred(st.ids),
    ensures
        extends(st.ids, analyze_condition_children(st, kids).ids),
        occurred(analyze_condition_children(st, kids).ids),
    decreases kids,
{
    if kids.len() > 0 {
        lemma_condition_children_extends(st, kids.drop_last());
        let st1 = analyze_condition_children(st, kids.drop_last());
        lemma_in_condition_extends(st1, kids.last());
        lemma_extends_trans(st.ids, st1.ids, analyze_in_condition(st1, kids.last()).ids);
    }
}

proof fn lemma_root_children_named(st: AnalyzerState, kids: Seq<SpecAst>)
    requires
        occurred(st.ids),
    ensures
        extends(st.ids, analyze_root_children(st, kids).ids),
        occurred(analyze_root_children(st, kids).ids),
        forall|i: int| 0 <= i < kids.len() && (#[trigger] child_name(kids[i])) is Some ==> named(
            analyze_root_children(st, kids).ids,
            child_name(kids[i])->Some_0,
        ),
    decreases kids.len(),
{
    if kids.len() > 0 {
        let dl = kids.drop_last();
        lemma_root_children_named(st, dl);
        let st1 = analyze_root_children(st, dl);
        let a = kids.last();
        let r = analyze_root_children(st, kids);
        match a {
            SpecAst::Condition { .. } => lemma_in_condition_extends(st1, a),
            SpecAst::Action { title, span, .. } => lemma_record_extends(st1.ids, modifier_name(title), span),
            _ => {},
        }
        lemma_extends_trans(st.ids, st1.ids, r.ids);
        assert forall|i: int| 0 <= i < kids.len() && (#[trigger] child_name(kids[i])) is Some implies named(
            r.ids,
            child_name(kids[i])->Some_0,
        ) by {
            if i < dl.len() {
                assert(dl[i] == kids[i]);
                lemma_extends_keeps(st1.ids, r.ids, child_name(kids[i])->Some_0);
            }
        }
    }
}

proof fn lemma_root_children_duplicate(st: AnalyzerState, kids: Seq<SpecAst>, i: int, j: int)
    requires
        occurred(st.ids),
        0 <= i < j < kids.len(),
        child_name(kids[i]) is Some,
        child_name(kids[j]) == child_name(kids[i]),
    ensures
        has_duplicate(analyze_root_children(st, kids).ids),
    decreases kids.len(),
{
    let dl = kids.drop_last();
    let st1 = analyze_root_children(st, dl);
    let a = kids.last();
    let r = analyze_root_children(st, kids);
    let n = child_name(kids[i])->Some_0;
    lemma_root_children_named(st, dl);
    match a {
        SpecAst::Condition { .. } => lemma_in_condition_extends(st1, a),
        SpecAst::Action { title, span, .. } => lemma_record_extends(st1.ids, modifier_name(title), span),
        _ => {},
    }
    if j < dl.len() {
        assert(dl[i] == kids[i] && dl[j] == kids[j]);
        lemma_root_children_duplicate(st, dl, i, j);
        lemma_extends_keeps(st1.ids, r.ids, n);
    } else {
        assert(dl[i] == kids[i]);
        assert(named(st1.ids, n));
        assert(a == kids[j]);
    }
}

proof fn lemma_duplicate_reported(ids: Identifiers)
    requires
        has_duplicate(ids),
    ensures
        duplicate_errors(ids).len() > 0,
    decreases ids.len(),
{
    let k = choose|k: int| 0 <= k < ids.len() && (#[trigger] ids[k]).1.len() > 1;
    if ids.last().1.len() <= 1 {
        let dl = ids.drop_last();
        assert(dl[k] == ids[k]);
        lemma_duplicate_reported(dl);
    }
}

/// Identifiers are unique: when two children of a tree's root, actions or
/// conditions, stand for the same identifier, analyzing the tree reports
/// an error.
pub proof fn law_duplicate_identifiers_rejected(
    text: Seq<char>,
    name: Seq<char>,
    span: Span,
    kids: Seq<SpecAst>,
    i: int,
    j: int,
)
    requires
        0 <= i < j < kids.len(),
        child_name(kids[i]) is Some,
        child_name(kids[j]) == child_name(kids[i]),
    ensures
        analyze_state(
            AnalyzerState { text, errors: Seq::empty(), ids: Seq::empty() },
            SpecAst::Root { name, span, children: kids },
        ).errors.len() > 0,
{
    let st = AnalyzerState { text, errors: Seq::<SpecError>::empty(), ids: Seq::empty() };
    lemma_root_children_duplicate(st, kids, i, j);
    let st1 = analyze_node(st, SpecAst::Root { name, span, children: kids });
    assert(st1 == analyze_root_children(st, kids));
    lemma_duplicate_reported(st1.ids);
}

/// The identifiers that the conditions of `a` stand for, `a` itself first,
/// then those under its children, in order, at any depth.
pub open spec fn condition_names(a: SpecAst) -> Seq<Seq<char>>
    decreases a,
{
    match a {
        SpecAst::Condition { title, children, .. } => seq![modifier_name(title)] + children_names(children),
        _ => Seq::empty(),
    }
}

/// The identifiers that the conditions among `kids` stand for, at any depth.
pub open spec fn children_names(kids: Seq<SpecAst>) -> Seq<Seq<char>>
    decreases kids,
{
    if kids.len() == 0 {
        Seq::empty()
    } else {
        children_names(kids.drop_last()) + condition_names(kids.last())
    }
}

/// The identifiers that the children of a root stand for: each condition
/// and every condition under it, at any depth, and each top-level action.
pub open spec fn root_names(kids: Seq<SpecAst>) -> Seq<Seq<char>>
    decreases kids.len(),
{
    if kids.len() == 0 {
        Seq::empty()
    } else {
        root_names(kids.drop_last()) + match kids.last() {
            SpecAst::Condition { .. } => condition_names(kids.last()),
            SpecAst::Action { title, .. } => seq![modifier_name(title)],
            _ => Seq::empty(),
        }
    }
}

/// Whether some identifier occurs twice in `ns`.
pub open spec fn repeats(ns: Seq<Seq<char>>) -> bool {
    exists|i: int, j: int| 0 <= i < j < ns.len() && #[trigger] ns[i] == #[trigger] ns[j]
}

/// Every identifier of `ns` is recorded in `ids`.
pub open spec fn all_named(ids: Identifiers, ns: Seq<Seq<char>>) -> bool {
    forall|k: int| 0 <= k < ns.len() ==> named(ids, #[trigger] ns[k])
}

/// Some identifier of `ns` is recorded in `ids`.
pub open spec fn some_named(ids: Identifiers, ns: Seq<Seq<char>>) -> bool {
    exists|k: int| 0 <= k < ns.len() && named(ids, #[trigger] ns[k])
}

/// Analyzing `b` after `a` records both; a repeat across them, within
/// either, or with what `ids` held, leaves a duplicate.
proof fn lemma_names_concat(
    ids: Identifiers,
    mid: Identifiers,
    r: Identifiers,
    a: Seq<Seq<char>>,
    b: Seq<Seq<char>>,
)
    requires
        extends(ids, mid),
        extends(mid, r),
        all_named(mid, a),
        all_named(r, b),
        (repeats(a) || some_named(ids, a)) ==> has_duplicate(mid),
        (repeats(b) || some_named(mid, b)) ==> has_duplicate(r),
    ensures
        all_named(r, a + b),
        (repeats(a + b) || some_named(ids, a + b)) ==> has_duplicate(r),
{
    let ab = a + b;
    assert forall|k: int| 0 <= k < ab.len() implies named(r, #[trigger] ab[k]) by {
        if k < a.len() {
            assert(ab[k] == a[k]);
            lemma_extends_keeps(mid, r, a[k]);
        } else {
            assert(ab[k] == b[k - a.len()]);
        }
    }
    if has_duplicate(mid) {
        lemma_extends_keeps(mid, r, Seq::empty());
    }
    if repeats(ab) {
        let (i, j) = choose|i: int, j: int| 0 <= i < j < ab.len() && #[trigger] ab[i] == #[trigger] ab[j];
        if j < a.len() {
            assert(ab[i] == a[i] && ab[j] == a[j]);
            assert(repeats(a));
        } else if i >= a.len() {
            assert(ab[i] == b[i - a.len()] && ab[j] == b[j - a.len()]);
            assert(repeats(b));
        } else {
            assert(ab[i] == a[i] && ab[j] == b[j - a.len()]);
            assert(named(mid, a[i]));
            assert(some_named(mid, b));
        }
    }
    if some_named(ids, ab) {
        let k = choose|k: int| 0 <= k < ab.len() && named(ids, #[trigger] ab[k]);
        if k < a.len() {
            assert(ab[k] == a[k]);
            assert(some_named(ids, a));
        } else {
            assert(ab[k] == b[k - a.len()]);
            lemma_extends_keeps(ids, mid, b[k - a.len()]);
            assert(some_named(mid, b));
        }
    }
}

proof fn lemma_extends_refl(ids: Identifiers)
    ensures
        extends(ids, ids),
{
}

proof fn lemma_in_condition_names(st: AnalyzerState, a: SpecAst)
    requires
        occurred(st.ids),
    ensures
        all_named(analyze_in_condition(st, a).ids, condition_names(a)),
        (repeats(condition_names(a)) || some_named(st.ids, condition_names(a))) ==> has_duplicate(
            analyze_in_condition(st, a).ids,
        ),
    decreases a,
{
    lemma_in_condition_extends(st, a);
    match a {
        SpecAst::Condition { title, span, children } => {
            let st1 = if children.len() == 0 {
                add_error(st, SpecKind::ConditionEmpty, span)
            } else {
                st
            };
            let n = modifier_name(title);
            lemma_record_extends(st1.ids, n, span);
            let st2 = AnalyzerState { ids: record(st1.ids, n, span), ..st1 };
            lemma_condition_children_names(st2, children);
            lemma_condition_children_extends(st2, children);
            let r = analyze_condition_children(st2, children);
            assert(r == analyze_in_condition(st, a));
            let one = seq![n];
            assert(all_named(st2.ids, one));
            if repeats(one) {
                let (i, j) = choose|i: int, j: int| 0 <= i < j < one.len() && #[trigger] one[i] == #[trigger] one[j];
                assert(false);
            }
            if some_named(st.ids, one) {
                let k = choose|k: int| 0 <= k < one.len() && named(st.ids, #[trigger] one[k]);
                assert(one[k] == n);
            }
            lemma_names_concat(st.ids, st2.ids, r.ids, one, children_names(children));
        },
        _ => {
            assert(condition_names(a) =~= Seq::<Seq<char>>::empty());
        },
    }
}

proof fn lemma_condition_children_names(st: AnalyzerState, kids: Seq<SpecAst>)
    requires
        occurred(st.ids),
    ensures
        all_named(analyze_condition_children(st, kids).ids, children_names(kids)),
        (repeats(children_names(kids)) || some_named(st.ids, children_names(kids))) ==> has_duplicate(
            analyze_condition_children(st, kids).ids,
        ),
    decreases kids,
{
    if kids.len() == 0 {
        assert(children_names(kids) =~= Seq::<Seq<char>>::empty());
    } else {
        let dl = kids.drop_last();
        lemma_condition_children_names(st, dl);
        lemma_condition_children_extends(st, dl);
        let st1 = analyze_condition_children(st, dl);
        lemma_in_condition_names(st1, kids.last());
        lemma_in_condition_extends(st1, kids.last());
        lemma_names_concat(
            st.ids,
            st1.ids,
            analyze_condition_children(st, kids).ids,
            children_names(dl),
            condition_names(kids.last()),
        );
    }
}

proof fn lemma_root_children_names(st: AnalyzerState, kids: Seq<SpecAst>)
    requires
        occurred(st.ids),
    ensures
        all_named(analyze_root_children(st, kids).ids, root_names(kids)),
        (repeats(root_names(kids)) || some_named(st.ids, root_names(kids))) ==> has_duplicate(
            analyze_root_children(st, kids).ids,
        ),
    decreases kids.len(),
{
    if kids.len() == 0 {
        assert(root_names(kids) =~= Seq::<Seq<char>>::empty());
    } else {
        let dl = kids.drop_last();
        lemma_root_children_names(st, dl);
        lemma_root_children_named(st, dl);
        let st1 = analyze_root_children(st, dl);
        let a = kids.last();
        let r = analyze_root_children(st, kids);
        let last = match a {
            SpecAst::Condition { .. } => condition_names(a),
            SpecAst::Action { title, .. } => seq![modifier_name(title)],
            _ => Seq::empty(),
        };
        match a {
            SpecAst::Condition { .. } => {
                lemma_in_condition_names(st1, a);
                lemma_in_condition_extends(st1, a);
            },
            SpecAst::Action { title, span, .. } => {
                let n = modifier_name(title);
                lemma_record_extends(st1.ids, n, span);
                assert(all_named(r.ids, last));
                if repeats(last) {
                    let (i, j) = choose|i: int, j: int| 0 <= i < j < last.len() && #[trigger] last[i] == #[trigger] last[j];
                    assert(false);
                }
                if some_named(st1.ids, last) {
                    let k = choose|k: int| 0 <= k < last.len() && named(st1.ids, #[trigger] last[k]);
                    assert(last[k] == n);
                }
            },
            _ => {
                lemma_extends_refl(st1.ids);
                assert(r.ids == st1.ids);
                if repeats(last) {
                    let (i, j) = choose|i: int, j: int| 0 <= i < j < last.len() && #[trigger] last[i] == #[trigger] last[j];
                    assert(false);
                }
                if some_named(st1.ids, last) {
                    let k = choose|k: int| 0 <= k < last.len() && named(st1.ids, #[trigger] last[k]);
                    assert(false);
                }
            },
        }
        assert(root_names(kids) == root_names(dl) + last);
        lemma_names_concat(st.ids, st1.ids, r.ids, root_names(dl), last);
    }
}

/// Every error for duplicated identifiers is an `IdentifierDuplicated`.
proof fn lemma_duplicate_errors_kind(ids: Identifiers)
    ensures
        forall|k: int|
            0 <= k < duplicate_errors(ids).len() ==> (#[trigger] duplicate_errors(ids)[k]).kind is IdentifierDuplicated,
    decreases ids.len(),
{
    if ids.len() > 0 {
        lemma_duplicate_errors_kind(ids.drop_last());
    }
}

/// Identifiers are unique at any depth: when two conditions anywhere in a
/// tree, or a condition and a top-level action, or two top-level actions,
/// stand for the same identifier, analyzing the tree reports that
/// identifier as duplicated.
pub proof fn law_nested_duplicates_rejected(
    text: Seq<char>,
    name: Seq<char>,
    span: Span,
    kids: Seq<SpecAst>,
    i: int,
    j: int,
)
    requires
        0 <= i < j < root_names(kids).len(),
        root_names(kids)[i] == root_names(kids)[j],
    ensures
        ({
            let r = analyze_state(
                AnalyzerState { text, errors: Seq::empty(), ids: Seq::empty() },
                SpecAst::Root { name, span, children: kids },
            );
            exists|k: int| 0 <= k < r.errors.len() && (#[trigger] r.errors[k]).kind is IdentifierDuplicated
        }),
{
    let st = AnalyzerState { text, errors: Seq::<SpecError>::empty(), ids: Seq::empty() };
    lemma_root_children_names(st, kids);
    let ns = root_names(kids);
    assert(repeats(ns)) by {
        assert(ns[i] == ns[j]);
    }
    assert(kids.len() > 0) by {
        if kids.len() == 0 {
            assert(root_names(kids) =~= Seq::<Seq<char>>::empty());
        }
    }
    let st1 = analyze_node(st, SpecAst::Root { name, span, children: kids });
    assert(st1 == analyze_root_children(st, kids));
    lemma_duplicate_reported(st1.ids);
    lemma_duplicate_errors_kind(st1.ids);
    let d = duplicate_errors(st1.ids);
    let r = analyze_state(st, SpecAst::Root { name, span, children: kids });
    assert(r.errors == st1.errors + d);
    let k = st1.errors.len() as int;
    assert(r.errors[k] == d[0]);
    assert(d[0].kind is IdentifierDuplicated);
}

/// The analysis of a child of a condition keeps the text.
proof fn lemma_in_condition_text(st: AnalyzerState, a: SpecAst)
    ensures
        analyze_in_condition(st, a).text == st.text,
    decreases a,
{
    match a {
        SpecAst::Condition { title, span, children } => {
            let st1 = if children.len() == 0 {
                add_error(st, SpecKind::ConditionEmpty, span)
            } else {
                st
            };
            let st2 = AnalyzerState { ids: record(st1.ids, modifier_name(title), span), ..st1 };
            lemma_condition_children_text(st2, children);
        },
        _ => {},
    }
}

/// The analysis of the children of a condition keeps the text.
proof fn lemma_condition_children_text(st: AnalyzerState, kids: Seq<SpecAst>)
    ensures
        analyze_condition_children(st, kids).text == st.text,
    decreases kids,
{
    if kids.len() > 0 {
        lemma_condition_children_text(st, kids.drop_last());
        lemma_in_condition_text(analyze_condition_children(st, kids.drop_last()), kids.last());
    }
}

/// The analysis of the children of a root keeps the text.
proof fn lemma_root_children_text(st: AnalyzerState, kids: Seq<SpecAst>)
    ensures
        analyze_root_children(st, kids).text == st.text,
    decreases kids.len(),
{
    if kids.len() > 0 {
        lemma_root_children_text(st, kids.drop_last());
        lemma_in_condition_text(analyze_root_children(st, kids.drop_last()), kids.last());
    }
}

/// The analysis of a tree keeps the text.
pub proof fn lemma_analyze_text(st: AnalyzerState, a: SpecAst)
    ensures
        analyze_state(st, a).text == st.text,
{
    match a {
        SpecAst::Root { span, children, .. } => {
            let st1 = if children.len() == 0 {
                add_error(st, SpecKind::TreeEmpty, Span { start: span.end, end: span.end })
            } else {
                st
            };
            lemma_root_children_text(st1, children);
        },
        SpecAst::Condition { .. } => lemma_in_condition_text(st, a),
        _ => {},
    }
}

/// The errors for the identifiers of `ids` that occur more than once, in
/// order: each at the start of its first occurrence, with all the spans.
pub open spec fn duplicate_errors(ids: Identifiers) -> Seq<SpecError>
    decreases ids.len(),
{
    if ids.len() == 0 {
        Seq::empty()
    } else {
        let rest = duplicate_errors(ids.drop_last());
        let spans = ids.last().1;
        if spans.len() > 1 {
            rest.push(
                SpecError {
                    kind: SpecKind::IdentifierDuplicated(spans),
                    span: Span { start: spans[0].start, end: spans[0].start },
                },
            )
        } else {
            rest
        }
    }
}

/// The state after analyzing `a`: the node's analysis, then the errors of
/// the duplicated identifiers.
pub open spec fn analyze_state(st: AnalyzerState, a: SpecAst) -> AnalyzerState {
    let st1 = analyze_node(st, a);
    AnalyzerState { errors: st1.errors + duplicate_errors(st1.ids), ..st1 }
}

/// A visitor that performs semantic analysis on an AST.
pub struct SemanticAnalyzer {
    /// The errors found so far.
    errors: Vec<Error>,
    /// The text of the tree.
    text: String,
    /// The identifiers seen so far, with the spans where they occurred.
    identifiers: Vec<(String, Vec<Span>)>,
}

impl View for SemanticAnalyzer {
    type V = AnalyzerState;

    closed spec fn view(&self) -> AnalyzerState {
        AnalyzerState {
            text: self.text@,
            errors: errors_view(self.errors@),
            ids: Seq::new(self.identifiers@.len(), |i: int| (self.identifiers@[i].0@, self.identifiers@[i].1@)),
        }
    }
}

impl SemanticAnalyzer {
    /// Every error carries the analyzer's text.
    closed spec fn wf(&self) -> bool {
        forall|i: int| 0 <= i < self.errors@.len() ==> #[trigger] self.errors@[i].text@ == self.text@
    }

    /// Whether every error that this analyzer holds carries its text.
    pub closed spec fn errors_carry_text(&self) -> bool {
        self.wf()
    }

    /// Creates a new semantic analyzer for `text`.
    pub fn new(text: &str) -> (res: Self)
        ensures
            res@ == (AnalyzerState { text: text@, errors: Seq::empty(), ids: Seq::empty() }),
            res.errors_carry_text(),
    {
        let res = SemanticAnalyzer { errors: Vec::new(), text: text.to_owned(), identifiers: Vec::new() };
        assert(res@.errors =~= Seq::<SpecError>::empty());
        assert(res@.ids =~= Seq::<(Seq<char>, Seq<Span>)>::empty());
        res
    }

    /// Records an error of the given kind at the given span.
    fn error(&mut self, span: Span, kind: ErrorKind)
        requires
            old(self).wf(),
        ensures
            final(self).wf(),
            final(self)@ == add_error(old(self)@, kind@, span),
            final(self).identifiers == old(self).identifiers,
    {
        let e = Error { kind, text: self.text.clone(), span };
        self.errors.push(e);
        assert(self@.errors =~= old(self)@.errors.push(SpecError { kind: kind@, span }));
        assert(self@.ids =~= old(self)@.ids);
    }

    /// Records one more occurrence of `name` at `span`.
    fn record(&mut self, name: String, span: Span)
        requires
            old(self).wf(),
        ensures
            final(self).wf(),
            final(self)@ == (AnalyzerState { ids: record(old(self)@.ids, name@, span), ..old(self)@ }),
    {
        let ghost ids0 = self@.ids;
        let mut i = self.identifiers.len();
        assert(ids0.take(i as int) =~= ids0);
        while i > 0
            invariant
                i <= self.identifiers@.len(),
                ids0 == self@.ids,
                self@ == old(self)@,
                self.wf(),
                index_of(ids0, name@) == index_of(ids0.take(i as int), name@),
            decreases i,
        {
            assert(ids0.take(i as int).drop_last() =~= ids0.take(i - 1));
            if self.identifiers[i - 1].0 == name {
                let ghost old_ids = self.identifiers@;
                let mut entry = self.identifiers.remove(i - 1);
                entry.1.push(span);
                self.identifiers.insert(i - 1, entry);
                assert(self@.ids =~= record(ids0, name@, span));
                assert(self@.errors =~= old(self)@.errors);
                return;
            }
            i = i - 1;
        }
        assert(ids0.take(0) =~= Seq::<(Seq<char>, Seq<Span>)>::empty());
        let mut spans: Vec<Span> = Vec::new();
        spans.push(span);
        assert(spans@ =~= seq![span]);
        self.identifiers.push((name, spans));
        assert(self@.ids =~= record(ids0, name@, span));
        assert(self@.errors =~= old(self)@.errors);
    }

    /// Analyzes a node that is a child of a condition.
    fn visit_in_condition(&mut self, a: &Ast)
        requires
            old(self).wf(),
        ensures
            final(self).wf(),
            final(self)@ == analyze_in_condition(old(self)@, a@),
        decreases a,
    {
        match a {
            Ast::Condition(c) => {
                if c.children.len() == 0 {
                    self.error(c.span, ErrorKind::ConditionEmpty);
                }
                let name = lower_first_letter(to_pascal_case(sanitize(c.title.as_str()).as_str()).as_str());
                self.record(name, c.span);
                self.visit_condition_children(&c.children);
            },
            Ast::Action(_) => {},
            Ast::Root(r) => {
                self.error(r.span, ErrorKind::NodeUnexpected);
            },
            Ast::ActionDescription(d) => {
                self.error(d.span, ErrorKind::NodeUnexpected);
            },
        }
    }

    /// Analyzes the children of a condition, in order.
    fn visit_condition_children(&mut self, kids: &Vec<Ast>)
        requires
            old(self).wf(),
        ensures
            final(self).wf(),
            final(self)@ == analyze_condition_children(old(self)@, asts_view(kids@)),
        decreases kids,
    {
        proof {
            lemma_asts_view(kids@);
        }
        let mut i: usize = 0;
        assert(asts_view(kids@).take(0) =~= Seq::<SpecAst>::empty());
        while i < kids.len()
            invariant
                i <= kids@.len(),
                asts_view(kids@).len() == kids@.len(),
                forall|j: int| 0 <= j < kids@.len() ==> #[trigger] asts_view(kids@)[j] == kids@[j]@,
                self.wf(),
                self@ == analyze_condition_children(old(self)@, asts_view(kids@).take(i as int)),
            decreases kids@.len() - i,
        {
            assert(asts_view(kids@).take(i + 1).drop_last() =~= asts_view(kids@).take(i as int));
            assert(asts_view(kids@).take(i + 1).last() == kids@[i as int]@);
            self.visit_in_condition(&kids[i]);
            i = i + 1;
        }
        assert(asts_view(kids@).take(kids@.len() as int) =~= asts_view(kids@));
    }

    /// Analyzes the children of a root, in order.
    fn visit_root_children(&mut self, kids: &Vec<Ast>)
        requires
            old(self).wf(),
        ensures
            final(self).wf(),
            final(self)@ == analyze_root_children(old(self)@, asts_view(kids@)),
    {
        proof {
            lemma_asts_view(kids@);
        }
        let mut i: usize = 0;
        assert(asts_view(kids@).take(0) =~= Seq::<SpecAst>::empty());
        while i < kids.len()
            invariant
                i <= kids@.len(),
                asts_view(kids@).len() == kids@.len(),
                forall|j: int| 0 <= j < kids@.len() ==> #[trigger] asts_view(kids@)[j] == kids@[j]@,
                self.wf(),
                self@ == analyze_root_children(old(self)@, asts_view(kids@).take(i as int)),
            decreases kids@.len() - i,
        {
            assert(asts_view(kids@).take(i + 1).drop_last() =~= asts_view(kids@).take(i as int));
            assert(asts_view(kids@).take(i + 1).last() == kids@[i as int]@);
            match &kids[i] {
                Ast::Condition(_) => {
                    self.visit_in_condition(&kids[i]);
                },
                Ast::Action(a) => {
                    let name = lower_first_letter(to_pascal_case(sanitize(a.title.as_str()).as_str()).as_str());
                    self.record(name, a.span);
                },
                Ast::Root(r) => {
                    self.error(r.span, ErrorKind::NodeUnexpected);
                },
                Ast::ActionDescription(d) => {
                    self.error(d.span, ErrorKind::NodeUnexpected);
                },
            }
            i = i + 1;
        }
        assert(asts_view(kids@).take(kids@.len() as int) =~= asts_view(kids@));
    }

    /// Records an error for every identifier that occurs more than once.
    fn report_duplicates(&mut self)
        requires
            old(self).wf(),
        ensures
            final(self).wf(),
            final(self)@ == (AnalyzerState {
                errors: old(self)@.errors + duplicate_errors(old(self)@.ids),
                ..old(self)@
            }),
    {
        let ghost ids0 = self@.ids;
        let ghost errs0 = self@.errors;
        let mut i: usize = 0;
        assert(ids0.take(0) =~= Seq::<(Seq<char>, Seq<Span>)>::empty());
        assert(errs0 + Seq::<SpecError>::empty() =~= errs0);
        while i < self.identifiers.len()
            invariant
                i <= self.identifiers@.len(),
                self@.ids == ids0,
                self@.text == old(self)@.text,
                self.wf(),
                self@.errors == errs0 + duplicate_errors(ids0.take(i as int)),
            decreases self.identifiers@.len() - i,
        {
            assert(ids0.take(i + 1).drop_last() =~= ids0.take(i as int));
            if self.identifiers[i].1.len() > 1 {
                let spans = copy_spans(&self.identifiers[i].1);
                let first = spans[0];
                let ghost before = self@.errors;
                self.error(Span { start: first.start, end: first.start }, ErrorKind::IdentifierDuplicated(spans));
                assert(errs0 + duplicate_errors(ids0.take(i + 1)) =~= before.push(self@.errors.last()));
            }
            i = i + 1;
        }
        assert(ids0.take(self.identifiers@.len() as int) =~= ids0);
    }

    /// Analyzes `ast` and reports the errors found so far, if any.
    ///
    /// The analyzer keeps what it saw: analyzing a second tree adds to the
    /// identifiers and errors of the first.
    pub fn analyze(&mut self, ast: &Ast) -> (res: Result<(), Errors>)
        requires
            old(self).errors_carry_text(),
        ensures
            final(self).errors_carry_text(),
            final(self)@ == analyze_state(old(self)@, ast@),
            match res {
                Ok(()) => final(self)@.errors.len() == 0,
                Err(es) => errors_view(es.0@) == final(self)@.errors && final(self)@.errors.len() > 0
                    && forall|i: int| 0 <= i < es.0@.len() ==> #[trigger] es.0@[i].text@ == final(self)@.text,
            },
    {
        match ast {
            Ast::Root(r) => {
                if r.children.len() == 0 {
                    self.error(Span { start: r.span.end, end: r.span.end }, ErrorKind::TreeEmpty);
                }
                self.visit_root_children(&r.children);
            },
            Ast::Condition(_) => {
                self.visit_in_condition(ast);
            },
            _ => {},
        }
        self.report_duplicates();
        if self.errors.len() > 0 {
            let es = copy_errors(&self.errors);
            return Err(Errors(es));
        }
        Ok(())
    }
}

/// A copy of a vector of spans.
fn copy_spans(v: &Vec<Span>) -> (res: Vec<Span>)
    ensures
        res@ == v@,
{
    let mut res: Vec<Span> = Vec::new();
    let mut i: usize = 0;
    while i < v.len()
        invariant
            i <= v@.len(),
            res@ == v@.take(i as int),
        decreases v@.len() - i,
    {
        res.push(v[i]);
        i = i + 1;
        assert(res@ =~= v@.take(i as int));
    }
    assert(v@.take(v@.len() as int) =~= v@);
    res
}

/// A copy of an error.
fn copy_error(e: &Error) -> (res: Error)
    ensures
        res@ == e@,
        res.text@ == e.text@,
{
    let kind = match &e.kind {
        ErrorKind::IdentifierDuplicated(v) => ErrorKind::IdentifierDuplicated(copy_spans(v)),
        ErrorKind::ConditionEmpty => ErrorKind::ConditionEmpty,
        ErrorKind::NodeUnexpected => ErrorKind::NodeUnexpected,
        ErrorKind::TreeEmpty => ErrorKind::TreeEmpty,
    };
    Error { kind, text: e.text.clone(), span: e.span }
}

/// A copy of a vector of errors.
fn copy_errors(v: &Vec<Error>) -> (res: Vec<Error>)
    ensures
        errors_view(res@) == errors_view(v@),
        forall|i: int| #![trigger res@[i]] 0 <= i < v@.len() ==> res@[i].text@ == v@[i].text@,
        res@.len() == v@.len(),
{
    let mut res: Vec<Error> = Vec::new();
    let mut i: usize = 0;
    while i < v.len()
        invariant
            i <= v@.len(),
            res@.len() == i,
            forall|j: int| #![trigger res@[j]] 0 <= j < i ==> res@[j]@ == v@[j]@ && res@[j].text@ == v@[j].text@,
        decreases v@.len() - i,
    {
        res.push(copy_error(&v[i]));
        i = i + 1;
    }
    assert(errors_view(res@) =~= errors_view(v@));
    res
}

} // verus!
