//! A parser for a stream of tokens that represents a bulloak tree.
use vstd::prelude::*;

use super::ast::{Action, Ast, Condition, Description, Root, SpecAst};
use super::tokenizer::{tokens_counted, tokens_view, SpecToken, Token, TokenKind};
use crate::error::{formattable, formatted, Formatter};
use crate::span::{counted_span, Position, Span};
use crate::text::push_str;
use crate::utils::{repeat_str, repeated, sanitize, sanitized};

verus! {

/// The type of an error that occurred while building an AST.
#[derive(Clone, Debug, PartialEq, Eq)]
pub enum ErrorKind {
    /// Did not expect this token here.
    TokenUnexpected(String),
    /// Did not expect this token when parsing a description node.
    DescriptionTokenUnexpected(String),
    /// Did not expect this `when` keyword.
    WhenUnexpected,
    /// Did not expect this `given` keyword.
    GivenUnexpected,
    /// Did not expect this `it` keyword.
    ItUnexpected,
    /// Did not expect a word.
    WordUnexpected(String),
    /// Did not expect the end of the input.
    EofUnexpected,
    /// The token stream was empty, so the tree is empty.
    TreeEmpty,
    /// A condition without a title was found.
    TitleMissing,
    /// A tree without a root was found.
    TreeRootless,
    /// A corner is not the last child.
    CornerNotLastChild,
    /// A tee is the last child.
    TeeLastChild,
}

/// The kind of a parse error as a mathematical value.
pub enum SpecKind {
    /// See `ErrorKind::TokenUnexpected`.
    TokenUnexpected(Seq<char>),
    /// See `ErrorKind::DescriptionTokenUnexpected`.
    DescriptionTokenUnexpected(Seq<char>),
    /// See `ErrorKind::WhenUnexpected`.
    WhenUnexpected,
    /// See `ErrorKind::GivenUnexpected`.
    GivenUnexpected,
    /// See `ErrorKind::ItUnexpected`.
    ItUnexpected,
    /// See `ErrorKind::WordUnexpected`.
    WordUnexpected(Seq<char>),
    /// See `ErrorKind::EofUnexpected`.
    EofUnexpected,
    /// See `ErrorKind::TreeEmpty`.
    TreeEmpty,
    /// See `ErrorKind::TitleMissing`.
    TitleMissing,
    /// See `ErrorKind::TreeRootless`.
    TreeRootless,
    /// See `ErrorKind::CornerNotLastChild`.
    CornerNotLastChild,
    /// See `ErrorKind::TeeLastChild`.
    TeeLastChild,
}

impl View for ErrorKind {
    type V = SpecKind;

    open spec fn view(&self) -> SpecKind {
        match self {
            ErrorKind::TokenUnexpected(s) => SpecKind::TokenUnexpected(s@),
            ErrorKind::DescriptionTokenUnexpected(s) => SpecKind::DescriptionTokenUnexpected(s@),
            ErrorKind::WhenUnexpected => SpecKind::WhenUnexpected,
            ErrorKind::GivenUnexpected => SpecKind::GivenUnexpected,
            ErrorKind::ItUnexpected => SpecKind::ItUnexpected,
            ErrorKind::WordUnexpected(s) => SpecKind::WordUnexpected(s@),
            ErrorKind::EofUnexpected => SpecKind::EofUnexpected,
            ErrorKind::TreeEmpty => SpecKind::TreeEmpty,
            ErrorKind::TitleMissing => SpecKind::TitleMissing,
            ErrorKind::TreeRootless => SpecKind::TreeRootless,
            ErrorKind::CornerNotLastChild => SpecKind::CornerNotLastChild,
            ErrorKind::TeeLastChild => SpecKind::TeeLastChild,
        }
    }
}

/// An error that occurred while parsing tokens into an AST.
#[derive(Clone, Debug, PartialEq, Eq)]
pub struct Error {
    /// The kind of error.
    pub kind: ErrorKind,
    /// The text that was parsed.
    pub text: String,
    /// The span of this error.
    pub span: Span,
}

impl Error {
    /// The type of this error.
    pub fn kind(&self) -> (res: &ErrorKind)
        ensures
            *res == self.kind,
    {
        &self.kind
    }

    /// The text in which this error occurred.
    pub fn text(&self) -> (res: &str)
        ensures
            res@ == self.text@,
    {
        self.text.as_str()
    }

    /// The span at which this error occurred.
    pub fn span(&self) -> (res: &Span)
        ensures
            *res == self.span,
    {
        &self.span
    }
}

/// The message that describes a kind of parse error.
pub open spec fn message_of(k: SpecKind) -> Seq<char> {
    match k {
        SpecKind::TokenUnexpected(l) => "unexpected token '"@ + l + "'"@,
        SpecKind::DescriptionTokenUnexpected(l) => "unexpected token in description '"@ + l + "'"@,
        SpecKind::WhenUnexpected => "unexpected `when` keyword"@,
        SpecKind::GivenUnexpected => "unexpected `given` keyword"@,
        SpecKind::ItUnexpected => "unexpected `it` keyword"@,
        SpecKind::WordUnexpected(l) => "unexpected `word` '"@ + l + "'"@,
        SpecKind::EofUnexpected => "unexpected end of file"@,
        SpecKind::TreeEmpty => "found an empty tree"@,
        SpecKind::TreeRootless => "missing a root"@,
        SpecKind::TitleMissing => "found a condition/action without a title"@,
        SpecKind::CornerNotLastChild => "a `Corner` must be the last child"@,
        SpecKind::TeeLastChild => "a `Tee` must not be the last child"@,
    }
}

/// The message with `l` between single quotes after `prefix`.
fn quoted(prefix: &str, l: &str) -> (res: String)
    ensures
        res@ == prefix@ + l@ + "'"@,
{
    let mut s = String::new();
    push_str(&mut s, prefix);
    push_str(&mut s, l);
    push_str(&mut s, "'");
    s
}

impl ErrorKind {
    /// The message that describes this kind of error.
    pub fn message(&self) -> (res: String)
        ensures
            res@ == message_of(self@),
    {
        match self {
            ErrorKind::TokenUnexpected(l) => quoted("unexpected token '", l.as_str()),
            ErrorKind::DescriptionTokenUnexpected(l) => quoted(
                "unexpected token in description '",
                l.as_str(),
            ),
            ErrorKind::WhenUnexpected => "unexpected `when` keyword".to_string(),
            ErrorKind::GivenUnexpected => "unexpected `given` keyword".to_string(),
            ErrorKind::ItUnexpected => "unexpected `it` keyword".to_string(),
            ErrorKind::WordUnexpected(l) => quoted("unexpected `word` '", l.as_str()),
            ErrorKind::EofUnexpected => "unexpected end of file".to_string(),
            ErrorKind::TreeEmpty => "found an empty tree".to_string(),
            ErrorKind::TreeRootless => "missing a root".to_string(),
            ErrorKind::TitleMissing => "found a condition/action without a title".to_string(),
            ErrorKind::CornerNotLastChild => "a `Corner` must be the last child".to_string(),
            ErrorKind::TeeLastChild => "a `Tee` must not be the last child".to_string(),
        }
    }
}

impl Error {
    /// The human readable report of this error.
    pub fn to_string(&self) -> (res: String)
        requires
            formattable(self.text@, self.span),
        ensures
            res@ == formatted(self.text@, message_of(self.kind@), self.span),
    {
        let m = self.kind.message();
        Formatter::new(self.text.as_str(), m.as_str(), &self.span).to_string()
    }
}

/// A parse error as a mathematical value.
pub struct SpecError {
    /// The kind of error.
    pub kind: SpecKind,
    /// The span of the error.
    pub span: Span,
}

/// The result of parsing one node: the node and the index of the first
/// token after it, or an error.
pub type NodeResult = Result<(SpecAst, int), SpecError>;

/// The result of parsing a run of sibling nodes.
pub type NodesResult = Result<(Seq<SpecAst>, int), SpecError>;

/// The span that starts and ends at `p`.
pub open spec fn splat(p: Position) -> Span {
    Span { start: p, end: p }
}

/// The span whose ends are at offset, line and column zero.
pub open spec fn zero_span() -> Span {
    let p = Position { offset: 0, line: 0, column: 0 };
    Span { start: p, end: p }
}

/// Whether a token of kind `k` is part of a title: a word or a keyword.
pub open spec fn is_word(k: TokenKind) -> bool {
    k == TokenKind::Word || k == TokenKind::It || k == TokenKind::When || k == TokenKind::Given
}

/// Joins `acc` and the words from index `j` on with single spaces; the
/// result and the index of the first token that is no word.
pub open spec fn collect_words(ts: Seq<SpecToken>, j: int, acc: Seq<char>) -> (Seq<char>, int)
    decreases ts.len() - j,
{
    if j < 0 || j >= ts.len() {
        (acc, ts.len() as int)
    } else if is_word(ts[j].kind) {
        collect_words(ts, j + 1, acc + seq![' '] + ts[j].lexeme)
    } else {
        (acc, j)
    }
}

/// The string that starts at token `k`: its lexeme and the words after it.
pub open spec fn string_at(ts: Seq<SpecToken>, k: int) -> (Seq<char>, int) {
    collect_words(ts, k + 1, ts[k].lexeme)
}

/// The end of a branch token `c` as a span.
pub open spec fn end_of(ts: Seq<SpecToken>, c: int) -> Span {
    splat(ts[c].span.end)
}

/// The span from branch token `c` to the token before `e`.
pub open spec fn node_span(ts: Seq<SpecToken>, c: int, e: int) -> Span {
    Span { start: ts[c].span.start, end: ts[e - 1].span.end }
}

/// Parses the condition whose branch token is at index `c`.
///
/// A condition has the form
/// `(TEE | CORNER) (WHEN | GIVEN) WORD* (children indented deeper)`.
pub open spec fn parse_condition_at(ts: Seq<SpecToken>, c: int) -> NodeResult
    decreases ts.len() - c, 1int,
{
    if c < 0 || c + 1 >= ts.len() {
        Err(SpecError { kind: SpecKind::EofUnexpected, span: end_of(ts, c) })
    } else {
        let (title, j) = string_at(ts, c + 1);
        if j == c + 2 {
            Err(SpecError { kind: SpecKind::TitleMissing, span: ts[c + 1].span })
        } else if j <= c + 1 || j > ts.len() {
            Err(SpecError { kind: SpecKind::EofUnexpected, span: end_of(ts, c) })
        } else {
            match parse_children_at(ts, c, j, Seq::empty(), true) {
                Err(e) => Err(e),
                Ok((kids, e)) => Ok(
                    (
                        SpecAst::Condition {
                            title: sanitized(title),
                            span: node_span(ts, c, e),
                            children: kids,
                        },
                        e,
                    ),
                ),
            }
        }
    }
}

/// Parses the action whose branch token is at index `c`.
///
/// An action has the form `(TEE | CORNER) IT WORD* (descriptions indented
/// deeper)`.
pub open spec fn parse_action_at(ts: Seq<SpecToken>, c: int) -> NodeResult
    decreases ts.len() - c, 1int,
{
    if c < 0 || c + 1 >= ts.len() {
        Err(SpecError { kind: SpecKind::EofUnexpected, span: end_of(ts, c) })
    } else {
        let (title, j) = string_at(ts, c + 1);
        if j <= c + 1 || j > ts.len() {
            Err(SpecError { kind: SpecKind::EofUnexpected, span: end_of(ts, c) })
        } else {
            match parse_children_at(ts, c, j, Seq::empty(), false) {
                Err(e) => Err(e),
                Ok((kids, e)) => Ok(
                    (SpecAst::Action { title, span: node_span(ts, c, e), children: kids }, e),
                ),
            }
        }
    }
}

/// Parses the description whose branch token is at index `c`, indented
/// `delta` columns deeper than its action.
pub open spec fn parse_description_at(ts: Seq<SpecToken>, c: int, delta: nat) -> NodeResult {
    if c < 0 || c + 1 >= ts.len() {
        Err(SpecError { kind: SpecKind::EofUnexpected, span: end_of(ts, c) })
    } else {
        let (text, j) = string_at(ts, c + 1);
        if j <= c + 1 || j > ts.len() {
            Err(SpecError { kind: SpecKind::EofUnexpected, span: end_of(ts, c) })
        } else {
            Ok(
                (
                    SpecAst::Description {
                        text: repeated(seq![' '], delta) + text,
                        span: node_span(ts, c, j),
                    },
                    j,
                ),
            )
        }
    }
}

/// Parses the children of the node whose branch token is at index `c`,
/// from index `cur` on: every branch indented deeper than that token is a
/// child. Children of a condition are conditions and actions; children of
/// an action are descriptions.
pub open spec fn parse_children_at(
    ts: Seq<SpecToken>,
    c: int,
    cur: int,
    acc: Seq<SpecAst>,
    of_condition: bool,
) -> NodesResult
    decreases ts.len() - cur, 2int,
{
    if cur < 0 || cur >= ts.len() || c < 0 || c >= ts.len() || ts[cur].span.start.column
        <= ts[c].span.start.column {
        Ok((acc, cur))
    } else if cur + 1 >= ts.len() {
        Err(SpecError { kind: SpecKind::EofUnexpected, span: end_of(ts, c) })
    } else {
        let next = ts[cur + 1];
        let child = if of_condition {
            if next.kind == TokenKind::When || next.kind == TokenKind::Given {
                parse_condition_at(ts, cur)
            } else if next.kind == TokenKind::It {
                parse_action_at(ts, cur)
            } else {
                Err(SpecError { kind: SpecKind::TokenUnexpected(next.lexeme), span: next.span })
            }
        } else {
            if next.kind == TokenKind::Word {
                parse_description_at(
                    ts,
                    cur,
                    (ts[cur].span.start.column - ts[c].span.start.column) as nat,
                )
            } else {
                Err(
                    SpecError {
                        kind: SpecKind::DescriptionTokenUnexpected(next.lexeme),
                        span: next.span,
                    },
                )
            }
        };
        match child {
            Err(e) => Err(e),
            Ok((a, e)) => if cur < e <= ts.len() {
                parse_children_at(ts, c, e, acc.push(a), of_condition)
            } else {
                Ok((acc.push(a), e))
            },
        }
    }
}

/// Parses a branch of the root at index `c`: a condition or an action. A
/// tee must not be the last branch and a corner must be.
pub open spec fn parse_branch_at(ts: Seq<SpecToken>, c: int) -> NodeResult
    decreases ts.len() - c, 3int,
{
    if c < 0 || c + 1 >= ts.len() {
        Err(SpecError { kind: SpecKind::EofUnexpected, span: end_of(ts, c) })
    } else {
        let next = ts[c + 1];
        let r = if next.kind == TokenKind::When || next.kind == TokenKind::Given {
            parse_condition_at(ts, c)
        } else if next.kind == TokenKind::It {
            parse_action_at(ts, c)
        } else {
            Err(SpecError { kind: SpecKind::TokenUnexpected(next.lexeme), span: next.span })
        };
        match r {
            Err(e) => Err(e),
            Ok((a, e)) => if ts[c].kind == TokenKind::Tee && e == ts.len() {
                Err(SpecError { kind: SpecKind::TeeLastChild, span: end_of(ts, c) })
            } else if ts[c].kind == TokenKind::Corner && e != ts.len() {
                Err(SpecError { kind: SpecKind::CornerNotLastChild, span: end_of(ts, c) })
            } else {
                Ok((a, e))
            },
        }
    }
}

/// Parses the branches of the root from index `cur` on.
pub open spec fn parse_root_children_at(ts: Seq<SpecToken>, cur: int, acc: Seq<SpecAst>) -> NodesResult
    decreases ts.len() - cur, 4int,
{
    if cur < 0 || cur >= ts.len() {
        Ok((acc, cur))
    } else {
        let t = ts[cur];
        if t.kind == TokenKind::Tee || t.kind == TokenKind::Corner {
            match parse_branch_at(ts, cur) {
                Err(e) => Err(e),
                Ok((a, e)) => if cur < e <= ts.len() {
                    parse_root_children_at(ts, e, acc.push(a))
                } else {
                    Ok((acc.push(a), e))
                },
            }
        } else if t.kind == TokenKind::Word {
            Err(SpecError { kind: SpecKind::WordUnexpected(t.lexeme), span: t.span })
        } else if t.kind == TokenKind::When {
            Err(SpecError { kind: SpecKind::WhenUnexpected, span: t.span })
        } else if t.kind == TokenKind::Given {
            Err(SpecError { kind: SpecKind::GivenUnexpected, span: t.span })
        } else {
            Err(SpecError { kind: SpecKind::ItUnexpected, span: t.span })
        }
    }
}

/// The AST of a token sequence: a root word (the contract name) followed
/// by its branches; or the first error.
pub open spec fn parse_tokens(ts: Seq<SpecToken>) -> Result<SpecAst, SpecError> {
    if ts.len() == 0 {
        Err(SpecError { kind: SpecKind::TreeEmpty, span: zero_span() })
    } else if ts[0].kind != TokenKind::Word {
        Err(SpecError { kind: SpecKind::TreeRootless, span: zero_span() })
    } else {
        match parse_root_children_at(ts, 1, Seq::empty()) {
            Err(e) => Err(e),
            Ok((kids, _)) => Ok(
                SpecAst::Root {
                    name: ts[0].lexeme,
                    span: Span {
                        start: ts[0].span.start,
                        end: if kids.len() == 0 {
                            ts[0].span.end
                        } else {
                            kids.last().span().end
                        },
                    },
                    children: kids,
                },
            ),
        }
    }
}


/// A branch of the root is a condition or an action.
proof fn lemma_branch_kind(ts: Seq<SpecToken>, c: int)
    ensures
        parse_branch_at(ts, c) matches Ok((a, _)) ==> (a is Condition || a is Action),
{
    if !(c < 0 || c + 1 >= ts.len()) {
        let next = ts[c + 1];
        if next.kind == TokenKind::When || next.kind == TokenKind::Given {
            reveal_with_fuel(parse_condition_at, 1);
        } else if next.kind == TokenKind::It {
            reveal_with_fuel(parse_action_at, 1);
        }
    }
}

/// The branches of the root are conditions and actions.
proof fn lemma_root_children_kinds(ts: Seq<SpecToken>, cur: int, acc: Seq<SpecAst>)
    requires
        forall|i: int| 0 <= i < acc.len() ==> !(#[trigger] acc[i] is Root),
    ensures
        parse_root_children_at(ts, cur, acc) matches Ok((kids, _)) ==> forall|i: int|
            0 <= i < kids.len() ==> !(#[trigger] kids[i] is Root),
    decreases ts.len() - cur,
{
    if !(cur < 0 || cur >= ts.len()) {
        let t = ts[cur];
        if t.kind == TokenKind::Tee || t.kind == TokenKind::Corner {
            lemma_branch_kind(ts, cur);
            match parse_branch_at(ts, cur) {
                Err(e) => {},
                Ok((a, e)) => {
                    let acc2 = acc.push(a);
                    assert forall|i: int| 0 <= i < acc2.len() implies !(#[trigger] acc2[i] is Root) by {
                        if i < acc.len() {
                            assert(acc2[i] == acc[i]);
                        }
                    }
                    if cur < e <= ts.len() {
                        lemma_root_children_kinds(ts, e, acc2);
                    }
                },
            }
        }
    }
}

/// A parsed tree is a root whose children are no roots.
pub proof fn lemma_parsed_root(ts: Seq<SpecToken>)
    ensures
        parse_tokens(ts) matches Ok(a) ==> a matches SpecAst::Root { children, .. } && forall|i: int|
            0 <= i < children.len() ==> !(#[trigger] children[i] is Root),
{
    if ts.len() > 0 && ts[0].kind == TokenKind::Word {
        lemma_root_children_kinds(ts, 1, Seq::empty());
    }
}

proof fn lemma_condition_bounds(ts: Seq<SpecToken>, c: int)
    requires
        0 <= c < ts.len(),
    ensures
        parse_condition_at(ts, c) matches Ok((_, e)) ==> c < e <= ts.len(),
    decreases ts.len() - c, 1int,
{
    if c + 1 < ts.len() {
        lemma_collect_words_bounds(ts, c + 2, ts[c + 1].lexeme);
        let (title, j) = string_at(ts, c + 1);
        if !(j == c + 2) && !(j <= c + 1 || j > ts.len()) {
            lemma_children_bounds(ts, c, j, Seq::empty(), true);
        }
    }
}

proof fn lemma_action_bounds(ts: Seq<SpecToken>, c: int)
    requires
        0 <= c < ts.len(),
    ensures
        parse_action_at(ts, c) matches Ok((_, e)) ==> c < e <= ts.len(),
    decreases ts.len() - c, 1int,
{
    if c + 1 < ts.len() {
        lemma_collect_words_bounds(ts, c + 2, ts[c + 1].lexeme);
        let (title, j) = string_at(ts, c + 1);
        if !(j <= c + 1 || j > ts.len()) {
            lemma_children_bounds(ts, c, j, Seq::empty(), false);
        }
    }
}

proof fn lemma_children_bounds(ts: Seq<SpecToken>, c: int, cur: int, acc: Seq<SpecAst>, of_condition: bool)
    requires
        0 <= c < ts.len(),
        0 <= cur <= ts.len(),
    ensures
        parse_children_at(ts, c, cur, acc, of_condition) matches Ok((_, e)) ==> cur <= e <= ts.len(),
    decreases ts.len() - cur, 2int,
{
    if !(cur >= ts.len() || ts[cur].span.start.column <= ts[c].span.start.column) && cur + 1 < ts.len() {
        let next = ts[cur + 1];
        if of_condition {
            if next.kind == TokenKind::When || next.kind == TokenKind::Given {
                lemma_condition_bounds(ts, cur);
            } else if next.kind == TokenKind::It {
                lemma_action_bounds(ts, cur);
            }
        } else if next.kind == TokenKind::Word {
            lemma_collect_words_bounds(ts, cur + 2, ts[cur + 1].lexeme);
        }
        let child = if of_condition {
            if next.kind == TokenKind::When || next.kind == TokenKind::Given {
                parse_condition_at(ts, cur)
            } else if next.kind == TokenKind::It {
                parse_action_at(ts, cur)
            } else {
                Err(SpecError { kind: SpecKind::TokenUnexpected(next.lexeme), span: next.span })
            }
        } else {
            if next.kind == TokenKind::Word {
                parse_description_at(ts, cur, (ts[cur].span.start.column - ts[c].span.start.column) as nat)
            } else {
                Err(SpecError { kind: SpecKind::DescriptionTokenUnexpected(next.lexeme), span: next.span })
            }
        };
        if let Ok((a, e)) = child {
            if cur < e <= ts.len() {
                lemma_children_bounds(ts, c, e, acc.push(a), of_condition);
            }
        }
    }
}

proof fn lemma_branch_bounds(ts: Seq<SpecToken>, c: int)
    requires
        0 <= c < ts.len(),
    ensures
        parse_branch_at(ts, c) matches Ok((_, e)) ==> c < e <= ts.len(),
{
    if c + 1 < ts.len() {
        let next = ts[c + 1];
        if next.kind == TokenKind::When || next.kind == TokenKind::Given {
            lemma_condition_bounds(ts, c);
        } else if next.kind == TokenKind::It {
            lemma_action_bounds(ts, c);
        }
    }
}

/// A branch ends where the last token that it takes in ends.
proof fn lemma_branch_end(ts: Seq<SpecToken>, c: int)
    ensures
        parse_branch_at(ts, c) matches Ok((a, e)) ==> a.span().end == ts[e - 1].span.end,
{
    if !(c < 0 || c + 1 >= ts.len()) {
        let next = ts[c + 1];
        if next.kind == TokenKind::When || next.kind == TokenKind::Given {
            reveal_with_fuel(parse_condition_at, 1);
        } else if next.kind == TokenKind::It {
            reveal_with_fuel(parse_action_at, 1);
        }
    }
}

/// The branches of the root take in every token from `cur` on: either
/// none is left to take in, or the last branch ends where the last token
/// ends.
proof fn lemma_root_children_end(ts: Seq<SpecToken>, cur: int, acc: Seq<SpecAst>)
    requires
        0 <= cur,
    ensures
        parse_root_children_at(ts, cur, acc) matches Ok((kids, _)) ==> (kids == acc && cur >= ts.len()) || (
        kids.len() > 0 && kids.last().span().end == ts[ts.len() - 1].span.end),
    decreases ts.len() - cur,
{
    if cur < ts.len() {
        let t = ts[cur];
        if t.kind == TokenKind::Tee || t.kind == TokenKind::Corner {
            lemma_branch_bounds(ts, cur);
            lemma_branch_end(ts, cur);
            if let Ok((a, e)) = parse_branch_at(ts, cur) {
                lemma_root_children_end(ts, e, acc.push(a));
            }
        }
    }
}

/// The root of a tree spans all its tokens: from the start of the first to
/// the end of the last.
pub proof fn law_root_spans_all_tokens(ts: Seq<SpecToken>)
    ensures
        parse_tokens(ts) matches Ok(a) ==> a.span() == (Span {
            start: ts[0].span.start,
            end: ts[ts.len() - 1].span.end,
        }),
{
    if ts.len() > 0 && ts[0].kind == TokenKind::Word {
        lemma_root_children_end(ts, 1, Seq::empty());
    }
}

/// An AST whose spans are all counted from one.
pub open spec fn ast_counted(a: SpecAst) -> bool
    decreases a,
{
    counted_span(a.span()) && match a {
        SpecAst::Root { children, .. } => asts_counted(children),
        SpecAst::Condition { children, .. } => asts_counted(children),
        SpecAst::Action { children, .. } => asts_counted(children),
        SpecAst::Description { .. } => true,
    }
}

/// ASTs whose spans are all counted from one.
pub open spec fn asts_counted(kids: Seq<SpecAst>) -> bool
    decreases kids,
{
    if kids.len() == 0 {
        true
    } else {
        asts_counted(kids.drop_last()) && ast_counted(kids.last())
    }
}

proof fn lemma_asts_counted_push(kids: Seq<SpecAst>, a: SpecAst)
    requires
        asts_counted(kids),
        ast_counted(a),
    ensures
        asts_counted(kids.push(a)),
{
    assert(kids.push(a).drop_last() =~= kids);
}

proof fn lemma_collect_words_bounds(ts: Seq<SpecToken>, j: int, acc: Seq<char>)
    ensures
        collect_words(ts, j, acc).1 == ts.len() || (0 <= j <= collect_words(ts, j, acc).1 < ts.len()),
    decreases ts.len() - j,
{
    if !(j < 0 || j >= ts.len()) && is_word(ts[j].kind) {
        lemma_collect_words_bounds(ts, j + 1, acc + seq![' '] + ts[j].lexeme);
    }
}

proof fn lemma_condition_counted(ts: Seq<SpecToken>, c: int)
    requires
        tokens_counted(ts),
        0 <= c < ts.len(),
    ensures
        match parse_condition_at(ts, c) {
            Ok((a, e)) => ast_counted(a) && c < e <= ts.len(),
            Err(er) => counted_span(er.span),
        },
    decreases ts.len() - c, 1int,
{
    assert(counted_span(ts[c].span));
    if c + 1 < ts.len() {
        assert(counted_span(ts[c + 1].span));
        lemma_collect_words_bounds(ts, c + 2, ts[c + 1].lexeme);
        let (title, j) = string_at(ts, c + 1);
        if !(j == c + 2) && !(j <= c + 1 || j > ts.len()) {
            lemma_children_counted(ts, c, j, Seq::empty(), true);
            if let Ok((kids, e)) = parse_children_at(ts, c, j, Seq::empty(), true) {
                assert(counted_span(ts[e - 1].span));
            }
        }
    }
}

proof fn lemma_action_counted(ts: Seq<SpecToken>, c: int)
    requires
        tokens_counted(ts),
        0 <= c < ts.len(),
    ensures
        match parse_action_at(ts, c) {
            Ok((a, e)) => ast_counted(a) && c < e <= ts.len(),
            Err(er) => counted_span(er.span),
        },
    decreases ts.len() - c, 1int,
{
    assert(counted_span(ts[c].span));
    if c + 1 < ts.len() {
        lemma_collect_words_bounds(ts, c + 2, ts[c + 1].lexeme);
        let (title, j) = string_at(ts, c + 1);
        if !(j <= c + 1 || j > ts.len()) {
            lemma_children_counted(ts, c, j, Seq::empty(), false);
            if let Ok((kids, e)) = parse_children_at(ts, c, j, Seq::empty(), false) {
                assert(counted_span(ts[e - 1].span));
            }
        }
    }
}

proof fn lemma_description_counted(ts: Seq<SpecToken>, c: int, delta: nat)
    requires
        tokens_counted(ts),
        0 <= c < ts.len(),
    ensures
        match parse_description_at(ts, c, delta) {
            Ok((a, e)) => ast_counted(a) && c < e <= ts.len(),
            Err(er) => counted_span(er.span),
        },
{
    assert(counted_span(ts[c].span));
    if c + 1 < ts.len() {
        lemma_collect_words_bounds(ts, c + 2, ts[c + 1].lexeme);
        let (text, j) = string_at(ts, c + 1);
        if !(j <= c + 1 || j > ts.len()) {
            assert(counted_span(ts[j - 1].span));
        }
    }
}

proof fn lemma_children_counted(ts: Seq<SpecToken>, c: int, cur: int, acc: Seq<SpecAst>, of_condition: bool)
    requires
        tokens_counted(ts),
        0 <= c < ts.len(),
        0 <= cur <= ts.len(),
        asts_counted(acc),
    ensures
        match parse_children_at(ts, c, cur, acc, of_condition) {
            Ok((kids, e)) => asts_counted(kids) && cur <= e <= ts.len(),
            Err(er) => counted_span(er.span),
        },
    decreases ts.len() - cur, 2int,
{
    assert(counted_span(ts[c].span));
    if !(cur >= ts.len() || ts[cur].span.start.column <= ts[c].span.start.column) && cur + 1 < ts.len() {
        let next = ts[cur + 1];
        assert(counted_span(next.span));
        if of_condition {
            if next.kind == TokenKind::When || next.kind == TokenKind::Given {
                lemma_condition_counted(ts, cur);
            } else if next.kind == TokenKind::It {
                lemma_action_counted(ts, cur);
            }
        } else if next.kind == TokenKind::Word {
            lemma_description_counted(ts, cur, (ts[cur].span.start.column - ts[c].span.start.column) as nat);
        }
        let child = if of_condition {
            if next.kind == TokenKind::When || next.kind == TokenKind::Given {
                parse_condition_at(ts, cur)
            } else if next.kind == TokenKind::It {
                parse_action_at(ts, cur)
            } else {
                Err(SpecError { kind: SpecKind::TokenUnexpected(next.lexeme), span: next.span })
            }
        } else {
            if next.kind == TokenKind::Word {
                parse_description_at(ts, cur, (ts[cur].span.start.column - ts[c].span.start.column) as nat)
            } else {
                Err(SpecError { kind: SpecKind::DescriptionTokenUnexpected(next.lexeme), span: next.span })
            }
        };
        if let Ok((a, e)) = child {
            lemma_asts_counted_push(acc, a);
            if cur < e <= ts.len() {
                lemma_children_counted(ts, c, e, acc.push(a), of_condition);
            }
        }
    }
}

proof fn lemma_branch_counted(ts: Seq<SpecToken>, c: int)
    requires
        tokens_counted(ts),
        0 <= c < ts.len(),
    ensures
        match parse_branch_at(ts, c) {
            Ok((a, e)) => ast_counted(a) && c < e <= ts.len(),
            Err(er) => counted_span(er.span),
        },
    decreases ts.len() - c, 3int,
{
    assert(counted_span(ts[c].span));
    if c + 1 < ts.len() {
        let next = ts[c + 1];
        assert(counted_span(next.span));
        if next.kind == TokenKind::When || next.kind == TokenKind::Given {
            lemma_condition_counted(ts, c);
        } else if next.kind == TokenKind::It {
            lemma_action_counted(ts, c);
        }
    }
}

proof fn lemma_root_children_counted(ts: Seq<SpecToken>, cur: int, acc: Seq<SpecAst>)
    requires
        tokens_counted(ts),
        0 <= cur,
        asts_counted(acc),
    ensures
        match parse_root_children_at(ts, cur, acc) {
            Ok((kids, _)) => asts_counted(kids),
            Err(er) => counted_span(er.span),
        },
    decreases ts.len() - cur, 4int,
{
    if cur < ts.len() {
        let t = ts[cur];
        assert(counted_span(t.span));
        if t.kind == TokenKind::Tee || t.kind == TokenKind::Corner {
            lemma_branch_counted(ts, cur);
            if let Ok((a, e)) = parse_branch_at(ts, cur) {
                lemma_asts_counted_push(acc, a);
                if cur < e <= ts.len() {
                    lemma_root_children_counted(ts, e, acc.push(a));
                }
            }
        }
    }
}

/// The outcome of parsing counted tokens: an AST whose spans are counted
/// from one, or an error whose span is counted from one or points nowhere.
pub proof fn lemma_parse_counted(ts: Seq<SpecToken>)
    requires
        tokens_counted(ts),
    ensures
        match parse_tokens(ts) {
            Ok(a) => ast_counted(a),
            Err(er) => counted_span(er.span) || er.span == zero_span(),
        },
{
    if ts.len() > 0 && ts[0].kind == TokenKind::Word {
        assert(counted_span(ts[0].span));
        lemma_root_children_counted(ts, 1, Seq::empty());
        if let Ok((kids, _)) = parse_root_children_at(ts, 1, Seq::empty()) {
            if kids.len() > 0 {
                assert(ast_counted(kids.last()));
            }
        }
    }
}

/// `res` is the outcome that `spec` describes, errors carrying `text`.
pub open spec fn node_matches(res: Result<(Ast, usize), Error>, spec: NodeResult, text: Seq<char>) -> bool {
    match res {
        Ok((a, e)) => spec == Ok::<(SpecAst, int), SpecError>((a@, e as int)),
        Err(err) => spec == Err::<(SpecAst, int), SpecError>(
            SpecError { kind: err.kind@, span: err.span },
        ) && err.text@ == text,
    }
}

/// `res` is the outcome that `spec` describes, errors carrying `text`.
pub open spec fn nodes_matches(
    res: Result<(Vec<Ast>, usize), Error>,
    spec: NodesResult,
    text: Seq<char>,
) -> bool {
    match res {
        Ok((v, e)) => spec == Ok::<(Seq<SpecAst>, int), SpecError>(
            (crate::syntax::ast::asts_view(v@), e as int),
        ),
        Err(err) => spec == Err::<(Seq<SpecAst>, int), SpecError>(
            SpecError { kind: err.kind@, span: err.span },
        ) && err.text@ == text,
    }
}

proof fn lemma_asts_view_push(s: Seq<Ast>, a: Ast)
    ensures
        crate::syntax::ast::asts_view(s.push(a)) == crate::syntax::ast::asts_view(s).push(a@),
{
    assert(s.push(a).drop_last() =~= s);
}

/// Creates an error of the given kind at the given span.
fn error(text: &str, span: Span, kind: ErrorKind) -> (res: Error)
    ensures
        res.kind == kind,
        res.span == span,
        res.text@ == text@,
{
    Error { kind, text: text.to_owned(), span }
}

/// The string that starts at token `k` and the index of the first token
/// after it.
fn parse_string(ts: &[Token], k: usize) -> (res: (String, usize))
    requires
        k < ts@.len(),
    ensures
        (res.0@, res.1 as int) == string_at(tokens_view(ts@), k as int),
        k < res.1 <= ts@.len(),
{
    let ghost tv = tokens_view(ts@);
    let mut acc = ts[k].lexeme.clone();
    let mut j = k + 1;
    while j < ts.len() && (ts[j].kind == TokenKind::Word || ts[j].kind == TokenKind::It
        || ts[j].kind == TokenKind::When || ts[j].kind == TokenKind::Given)
        invariant
            tv == tokens_view(ts@),
            k < j <= ts@.len(),
            string_at(tv, k as int) == collect_words(tv, j as int, acc@),
        decreases ts@.len() - j,
    {
        let ghost old_acc = acc@;
        crate::text::push_char(&mut acc, ' ');
        crate::text::push_str(&mut acc, ts[j].lexeme.as_str());
        assert(acc@ =~= old_acc + seq![' '] + tv[j as int].lexeme);
        j = j + 1;
    }
    (acc, j)
}

/// Parses the condition whose branch token is at index `c`.
fn parse_condition(text: &str, ts: &[Token], c: usize) -> (res: Result<(Ast, usize), Error>)
    requires
        c < ts@.len(),
    ensures
        node_matches(res, parse_condition_at(tokens_view(ts@), c as int), text@),
        res matches Ok((_, e)) ==> c < e <= ts@.len(),
    decreases ts@.len() - c, 1int,
{
    let ghost tv = tokens_view(ts@);
    if c >= ts.len() - 1 {
        return Err(error(text, Span { start: ts[c].span.end, end: ts[c].span.end }, ErrorKind::EofUnexpected));
    }
    let (title, j) = parse_string(ts, c + 1);
    if j == c + 2 {
        return Err(error(text, ts[c + 1].span, ErrorKind::TitleMissing));
    }
    match parse_children(text, ts, c, j, true) {
        Err(e) => Err(e),
        Ok((kids, e)) => {
            let span = Span { start: ts[c].span.start, end: ts[e - 1].span.end };
            Ok((Ast::Condition(Condition { title: sanitize(title.as_str()), span, children: kids }), e))
        },
    }
}

/// Parses the action whose branch token is at index `c`.
fn parse_action(text: &str, ts: &[Token], c: usize) -> (res: Result<(Ast, usize), Error>)
    requires
        c < ts@.len(),
    ensures
        node_matches(res, parse_action_at(tokens_view(ts@), c as int), text@),
        res matches Ok((_, e)) ==> c < e <= ts@.len(),
    decreases ts@.len() - c, 1int,
{
    if c >= ts.len() - 1 {
        return Err(error(text, Span { start: ts[c].span.end, end: ts[c].span.end }, ErrorKind::EofUnexpected));
    }
    let (title, j) = parse_string(ts, c + 1);
    match parse_children(text, ts, c, j, false) {
        Err(e) => Err(e),
        Ok((kids, e)) => {
            let span = Span { start: ts[c].span.start, end: ts[e - 1].span.end };
            Ok((Ast::Action(Action { title, span, children: kids }), e))
        },
    }
}

/// Parses the description whose branch token is at index `c`, indented
/// `delta` columns deeper than its action.
fn parse_description(text: &str, ts: &[Token], c: usize, delta: usize) -> (res: Result<(Ast, usize), Error>)
    requires
        c < ts@.len(),
    ensures
        node_matches(res, parse_description_at(tokens_view(ts@), c as int, delta as nat), text@),
        res matches Ok((_, e)) ==> c < e <= ts@.len(),
{
    if c >= ts.len() - 1 {
        return Err(error(text, Span { start: ts[c].span.end, end: ts[c].span.end }, ErrorKind::EofUnexpected));
    }
    let (words, j) = parse_string(ts, c + 1);
    let mut t = repeat_str(" ", delta);
    proof {
        reveal_strlit(" ");
        assert(" "@ =~= seq![' ']);
    }
    crate::text::push_str(&mut t, words.as_str());
    let span = Span { start: ts[c].span.start, end: ts[j - 1].span.end };
    Ok((Ast::ActionDescription(Description { text: t, span }), j))
}

/// Parses the children of the node whose branch token is at index `c`,
/// from index `cur` on.
fn parse_children(text: &str, ts: &[Token], c: usize, cur: usize, of_condition: bool) -> (res: Result<
    (Vec<Ast>, usize),
    Error,
>)
    requires
        c < ts@.len(),
        c < cur <= ts@.len(),
    ensures
        nodes_matches(res, parse_children_at(tokens_view(ts@), c as int, cur as int, Seq::empty(), of_condition), text@),
        res matches Ok((_, e)) ==> cur <= e <= ts@.len(),
    decreases ts@.len() - cur, 2int,
{
    let ghost tv = tokens_view(ts@);
    let mut acc: Vec<Ast> = Vec::new();
    let mut k = cur;
    assert(crate::syntax::ast::asts_view(acc@) =~= Seq::<SpecAst>::empty());
    loop
        invariant
            tv == tokens_view(ts@),
            c < ts@.len(),
            cur <= k <= ts@.len(),
            parse_children_at(tv, c as int, cur as int, Seq::empty(), of_condition)
                == parse_children_at(tv, c as int, k as int, crate::syntax::ast::asts_view(acc@), of_condition),
        decreases ts@.len() - k,
    {
        if k >= ts.len() || ts[k].span.start.column <= ts[c].span.start.column {
            return Ok((acc, k));
        }
        if k >= ts.len() - 1 {
            return Err(error(text, Span { start: ts[c].span.end, end: ts[c].span.end }, ErrorKind::EofUnexpected));
        }
        let next_kind = ts[k + 1].kind;
        let child = if of_condition {
            if next_kind == TokenKind::When || next_kind == TokenKind::Given {
                parse_condition(text, ts, k)
            } else if next_kind == TokenKind::It {
                parse_action(text, ts, k)
            } else {
                Err(error(text, ts[k + 1].span, ErrorKind::TokenUnexpected(ts[k + 1].lexeme.clone())))
            }
        } else {
            if next_kind == TokenKind::Word {
                let delta = ts[k].span.start.column - ts[c].span.start.column;
                parse_description(text, ts, k, delta)
            } else {
                Err(
                    error(
                        text,
                        ts[k + 1].span,
                        ErrorKind::DescriptionTokenUnexpected(ts[k + 1].lexeme.clone()),
                    ),
                )
            }
        };
        match child {
            Err(e) => {
                return Err(e);
            },
            Ok((a, e)) => {
                proof {
                    lemma_asts_view_push(acc@, a);
                }
                acc.push(a);
                k = e;
            },
        }
    }
}

/// Parses a branch of the root at index `c`.
fn parse_branch(text: &str, ts: &[Token], c: usize) -> (res: Result<(Ast, usize), Error>)
    requires
        c < ts@.len(),
    ensures
        node_matches(res, parse_branch_at(tokens_view(ts@), c as int), text@),
        res matches Ok((_, e)) ==> c < e <= ts@.len(),
    decreases ts@.len() - c, 3int,
{
    if c >= ts.len() - 1 {
        return Err(error(text, Span { start: ts[c].span.end, end: ts[c].span.end }, ErrorKind::EofUnexpected));
    }
    let next_kind = ts[c + 1].kind;
    let r = if next_kind == TokenKind::When || next_kind == TokenKind::Given {
        parse_condition(text, ts, c)
    } else if next_kind == TokenKind::It {
        parse_action(text, ts, c)
    } else {
        Err(error(text, ts[c + 1].span, ErrorKind::TokenUnexpected(ts[c + 1].lexeme.clone())))
    };
    match r {
        Err(e) => Err(e),
        Ok((a, e)) => {
            if ts[c].kind == TokenKind::Tee && e == ts.len() {
                Err(error(text, Span { start: ts[c].span.end, end: ts[c].span.end }, ErrorKind::TeeLastChild))
            } else if ts[c].kind == TokenKind::Corner && e != ts.len() {
                Err(error(text, Span { start: ts[c].span.end, end: ts[c].span.end }, ErrorKind::CornerNotLastChild))
            } else {
                Ok((a, e))
            }
        },
    }
}

/// Parses the branches of the root from index `1` on.
fn parse_root_children(text: &str, ts: &[Token]) -> (res: Result<(Vec<Ast>, usize), Error>)
    requires
        1 <= ts@.len(),
    ensures
        nodes_matches(res, parse_root_children_at(tokens_view(ts@), 1, Seq::empty()), text@),
{
    let ghost tv = tokens_view(ts@);
    let mut acc: Vec<Ast> = Vec::new();
    let mut k: usize = 1;
    assert(crate::syntax::ast::asts_view(acc@) =~= Seq::<SpecAst>::empty());
    loop
        invariant
            tv == tokens_view(ts@),
            1 <= k <= ts@.len(),
            parse_root_children_at(tv, 1, Seq::empty())
                == parse_root_children_at(tv, k as int, crate::syntax::ast::asts_view(acc@)),
        decreases ts@.len() - k,
    {
        if k >= ts.len() {
            return Ok((acc, k));
        }
        let kind = ts[k].kind;
        if kind == TokenKind::Tee || kind == TokenKind::Corner {
            match parse_branch(text, ts, k) {
                Err(e) => {
                    return Err(e);
                },
                Ok((a, e)) => {
                    proof {
                        lemma_asts_view_push(acc@, a);
                    }
                    acc.push(a);
                    k = e;
                },
            }
        } else if kind == TokenKind::Word {
            return Err(error(text, ts[k].span, ErrorKind::WordUnexpected(ts[k].lexeme.clone())));
        } else if kind == TokenKind::When {
            return Err(error(text, ts[k].span, ErrorKind::WhenUnexpected));
        } else if kind == TokenKind::Given {
            return Err(error(text, ts[k].span, ErrorKind::GivenUnexpected));
        } else {
            return Err(error(text, ts[k].span, ErrorKind::ItUnexpected));
        }
    }
}

/// A parser for a sequence of `.tree` tokens into an AST.
#[derive(Clone, Default)]
pub struct Parser {
    /// The index of the current token.
    current: usize,
}

impl Parser {
    /// The index of the token that the parser is at.
    pub closed spec fn position(&self) -> nat {
        self.current as nat
    }

    /// Creates a new parser, at the first token.
    pub fn new() -> (res: Self)
        ensures
            res.position() == 0,
    {
        Parser { current: 0 }
    }

    /// Parses the given tokens of `text` into an AST.
    ///
    /// The result is the AST that `parse_tokens` describes, or its error.
    pub fn parse(&mut self, text: &str, tokens: &[Token]) -> (res: Result<Ast, Error>)
        ensures
            *final(self) == *old(self),
            match res {
                Ok(a) => parse_tokens(tokens_view(tokens@)) == Ok::<SpecAst, SpecError>(a@),
                Err(err) => parse_tokens(tokens_view(tokens@)) == Err::<SpecAst, SpecError>(
                    SpecError { kind: err.kind@, span: err.span },
                ) && err.text@ == text@,
            },
    {
        let zero = Span::zero();
        if tokens.len() == 0 {
            return Err(error(text, zero, ErrorKind::TreeEmpty));
        }
        if tokens[0].kind != TokenKind::Word {
            return Err(error(text, zero, ErrorKind::TreeRootless));
        }
        match parse_root_children(text, tokens) {
            Err(e) => Err(e),
            Ok((kids, _)) => {
                let end = if kids.len() == 0 {
                    tokens[0].span.end
                } else {
                    kids[kids.len() - 1].span().end
                };
                let ghost kv = crate::syntax::ast::asts_view(kids@);
                proof {
                    if kids@.len() > 0 {
                        lemma_asts_view_last(kids@);
                    }
                }
                Ok(
                    Ast::Root(
                        Root {
                            contract_name: tokens[0].lexeme.clone(),
                            span: Span { start: tokens[0].span.start, end },
                            children: kids,
                        },
                    ),
                )
            },
        }
    }
}

proof fn lemma_asts_view_last(s: Seq<Ast>)
    requires
        s.len() > 0,
    ensures
        crate::syntax::ast::asts_view(s).len() == s.len(),
        crate::syntax::ast::asts_view(s).last() == s.last()@,
    decreases s.len(),
{
    lemma_asts_view_len(s);
}

proof fn lemma_asts_view_len(s: Seq<Ast>)
    ensures
        crate::syntax::ast::asts_view(s).len() == s.len(),
    decreases s.len(),
{
    if s.len() > 0 {
        lemma_asts_view_len(s.drop_last());
    }
}

} // verus!
