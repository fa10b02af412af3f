//! The errors of the compiler and their human readable form.
use vstd::prelude::*;

use crate::hir::combiner;
use crate::span::Span;
use crate::syntax::{parser, semantics, tokenizer};
use crate::text::{chars_of, push_str, string_from_chars, take_chars};
use crate::utils::{decimal, decimal_of, repeat_str, repeated, split_on, split_on_exec};

verus! {

/// Any error that can be returned when compiling a tree.
#[derive(Clone, Debug, PartialEq, Eq)]
pub enum Error {
    /// An error that occurred while tokenizing the input text.
    Tokenize(tokenizer::Error),
    /// An error that occurred while translating concrete syntax into abstract
    /// syntax.
    Parse(parser::Error),
    /// An error that occurred while combining HIRs.
    Combine(combiner::Error),
    /// The errors found by the semantic analysis of an abstract syntax tree.
    Semantic(semantics::Errors),
}

/// An error as a mathematical value.
pub enum Failure {
    /// See `Error::Tokenize`.
    Tokenize(tokenizer::SpecError),
    /// See `Error::Parse`.
    Parse(parser::SpecError),
    /// See `Error::Combine`.
    Combine(combiner::SpecError),
    /// See `Error::Semantic`.
    Semantic(Seq<semantics::SpecError>),
}

impl View for Error {
    type V = Failure;

    open spec fn view(&self) -> Failure {
        match self {
            Error::Tokenize(e) => Failure::Tokenize(
                tokenizer::SpecError { span: e.span, ch: e.kind->IdentifierCharInvalid_0 },
            ),
            Error::Parse(e) => Failure::Parse(parser::SpecError { kind: e.kind@, span: e.span }),
            Error::Combine(e) => Failure::Combine(combiner::error_view(*e)),
            Error::Semantic(es) => Failure::Semantic(semantics::errors_view(es.0@)),
        }
    }
}

/// The texts that an error carries are all `t`.
pub open spec fn carries_text(e: Error, t: Seq<char>) -> bool {
    match e {
        Error::Tokenize(e) => e.text@ == t,
        Error::Parse(e) => e.text@ == t,
        Error::Combine(e) => e.text@ == t,
        Error::Semantic(es) => forall|i: int| 0 <= i < es.0@.len() ==> #[trigger] es.0@[i].text@ == t,
    }
}

/// Errors whose spans can all be reported in their texts.
pub open spec fn reportable(e: Error) -> bool {
    match e {
        Error::Tokenize(e) => formattable(e.text@, e.span),
        Error::Parse(e) => formattable(e.text@, e.span),
        Error::Combine(e) => formattable(e.text@, e.span),
        Error::Semantic(es) => forall|i: int|
            0 <= i < es.0@.len() ==> formattable(#[trigger] es.0@[i].text@, es.0@[i].span),
    }
}

/// The human readable report of an error.
pub open spec fn report(e: Error) -> Seq<char> {
    match e {
        Error::Tokenize(e) => formatted(e.text@, e.kind.spec_message(), e.span),
        Error::Parse(e) => formatted(e.text@, parser::message_of(e.kind@), e.span),
        Error::Combine(e) => formatted(
            e.text@,
            combiner::mismatch_message(e.kind->ContractNameMismatch_0@, e.kind->ContractNameMismatch_1@),
            e.span,
        ),
        Error::Semantic(es) => semantics::reports(semantics::texts_of(es.0@), semantics::errors_view(es.0@)),
    }
}

impl Error {
    /// The human readable report of this error.
    pub fn to_string(&self) -> (res: String)
        requires
            reportable(*self),
        ensures
            res@ == report(*self),
    {
        match self {
            Error::Tokenize(e) => e.to_string(),
            Error::Parse(e) => e.to_string(),
            Error::Combine(e) => e.to_string(),
            Error::Semantic(es) => es.to_string(),
        }
    }
}

/// `l` without a carriage return at its end.
pub open spec fn without_cr(l: Seq<char>) -> Seq<char> {
    if l.len() > 0 && l.last() == '\r' {
        l.drop_last()
    } else {
        l
    }
}

/// The lines of `t`, as `str::lines` yields them: the pieces between
/// newlines, a carriage return before a newline dropped, and no empty line
/// after a final newline.
pub open spec fn lines_of(t: Seq<char>) -> Seq<Seq<char>> {
    let ps = split_on(t, seq!['\n']);
    let n: int = if ps.last().len() == 0 {
        ps.len() - 1
    } else {
        ps.len() as int
    };
    Seq::new(
        n as nat,
        |i: int|
            if i < ps.len() - 1 {
                without_cr(ps[i])
            } else {
                ps[i]
            },
    )
}

/// Whether a span starts and ends at offset zero: such a span points at
/// nothing in the text.
pub open spec fn points_nowhere(span: Span) -> bool {
    span.start.offset == span.end.offset && span.start.offset == 0
}

/// The number of carets under a span: one per column it covers, at least
/// one.
pub open spec fn note_len(span: Span) -> nat {
    if span.end.column > span.start.column {
        (span.end.column - span.start.column + 1) as nat
    } else {
        1
    }
}

/// Spans that can be notated in `text`: their line is counted from one, and
/// their column too when that line exists.
pub open spec fn notatable(text: Seq<char>, span: Span) -> bool {
    span.start.line >= 1 && (span.start.line - 1 < lines_of(text).len() ==> span.start.column >= 1)
}

/// The line of `text` where `span` starts, with carets under the span; empty
/// when there is no such line.
pub open spec fn notated(text: Seq<char>, span: Span) -> Seq<char> {
    let ls = lines_of(text);
    let k = span.start.line - 1;
    if 0 <= k < ls.len() {
        ls[k] + "\n"@ + repeated(" "@, (span.start.column - 1) as nat) + repeated(
            "^"@,
            note_len(span),
        ) + "\n"@
    } else {
        Seq::empty()
    }
}

/// The divider above every error report.
pub open spec fn divider() -> Seq<char> {
    repeated("•"@, 79)
}

/// The report of an error with message `msg` at `span` in `text`: a
/// divider, the message, and, for a span that points somewhere, the notated
/// line and the position.
pub open spec fn formatted(text: Seq<char>, msg: Seq<char>, span: Span) -> Seq<char> {
    if points_nowhere(span) {
        divider() + "\n"@ + "bulloak error: "@ + msg
    } else {
        divider() + "\n"@ + "bulloak error: "@ + msg + "\n\n"@ + notated(text, span) + "\n"@
            + "--- (line "@ + decimal_of(span.start.line as nat) + ", column "@ + decimal_of(
            span.start.column as nat,
        ) + ") ---\n"@
    }
}

/// Spans whose errors can be reported in `text`.
pub open spec fn formattable(text: Seq<char>, span: Span) -> bool {
    points_nowhere(span) || notatable(text, span)
}

/// The line with index `k` of `text`, if there is one.
fn nth_line(text: &str, k: usize) -> (res: Option<String>)
    ensures
        match res {
            Some(l) => k < lines_of(text@).len() && l@ == lines_of(text@)[k as int],
            None => k >= lines_of(text@).len(),
        },
{
    let v = chars_of(text);
    let nl = vec!['\n'];
    assert(nl@ =~= seq!['\n']);
    let ps = split_on_exec(v.as_slice(), nl.as_slice());
    assert(split_on(text@, seq!['\n']).len() > 0);
    let last = ps.len() - 1;
    let n = if ps[last].len() == 0 {
        last
    } else {
        ps.len()
    };
    if k >= n {
        return None;
    }
    let p = &ps[k];
    if k < last && p.len() > 0 && p[p.len() - 1] == '\r' {
        let q = take_chars(p.as_slice(), p.len() - 1);
        assert(q@ =~= p@.drop_last());
        Some(string_from_chars(q.as_slice()))
    } else {
        Some(string_from_chars(p.as_slice()))
    }
}

/// A helper for formatting human readable error reports.
pub struct Formatter<'e> {
    /// The text in which the error occurred.
    pub text: &'e str,
    /// The message of the error.
    pub err: &'e str,
    /// The span of the error.
    pub span: &'e Span,
}

impl<'e> Formatter<'e> {
    /// Creates a formatter for the error `err` at `span` in `text`.
    pub fn new(text: &'e str, err: &'e str, span: &'e Span) -> (res: Self)
        ensures
            res.text@ == text@,
            res.err@ == err@,
            *res.span == *span,
    {
        Formatter { text, err, span }
    }

    /// The line where the error starts, with carets (`^`) under the span
    /// where it happened.
    pub fn notate(&self) -> (res: String)
        requires
            notatable(self.text@, *self.span),
        ensures
            res@ == notated(self.text@, *self.span),
    {
        let mut notated = String::new();
        if let Some(line) = nth_line(self.text, self.span.start.line - 1) {
            push_str(&mut notated, line.as_str());
            push_str(&mut notated, "\n");
            let pad = repeat_str(" ", self.span.start.column - 1);
            push_str(&mut notated, pad.as_str());
            let note_len = if self.span.end.column > self.span.start.column {
                self.span.end.column - self.span.start.column + 1
            } else {
                1
            };
            let carets = repeat_str("^", note_len);
            push_str(&mut notated, carets.as_str());
            push_str(&mut notated, "\n");
        }
        notated
    }

    /// The report of the error.
    pub fn to_string(&self) -> (res: String)
        requires
            formattable(self.text@, *self.span),
        ensures
            res@ == formatted(self.text@, self.err@, *self.span),
    {
        let mut res = repeat_str("•", 79);
        push_str(&mut res, "\n");
        push_str(&mut res, "bulloak error: ");
        push_str(&mut res, self.err);
        if self.span.start.offset == self.span.end.offset && self.span.start.offset == 0 {
            return res;
        }
        push_str(&mut res, "\n\n");
        let notated = self.notate();
        push_str(&mut res, notated.as_str());
        push_str(&mut res, "\n");
        push_str(&mut res, "--- (line ");
        let line = decimal(self.span.start.line);
        push_str(&mut res, line.as_str());
        push_str(&mut res, ", column ");
        let column = decimal(self.span.start.column);
        push_str(&mut res, column.as_str());
        push_str(&mut res, ") ---\n");
        res
    }
}

} // verus!
