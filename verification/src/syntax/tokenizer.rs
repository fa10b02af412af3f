//! A scanner for bulloak trees that produces a token stream.
use vstd::prelude::*;

use crate::error::{formattable, formatted, Formatter};
use crate::span::{counted_span, Position, Span};
use crate::text::{
    alphanumeric, char_width, chars_eq, chars_of, is_alphanumeric, is_whitespace, is_ws, push_char,
    str_lower_of, str_to_lowercase, utf8_width, ascii_lowered, is_ascii_text,
};

verus! {

/// The type of an error that occurred while tokenizing a tree.
#[derive(Clone, Debug, PartialEq, Eq, Structural)]
pub enum ErrorKind {
    /// Found an invalid identifier character.
    IdentifierCharInvalid(char),
}

/// An error that occurred while tokenizing a `.tree` text.
#[derive(Clone, Debug, PartialEq, Eq)]
pub struct Error {
    /// The kind of error.
    pub kind: ErrorKind,
    /// The text that was being tokenized.
    pub text: String,
    /// The span of this error.
    pub span: Span,
}

impl Error {
    /// The type of this error.
    pub fn kind(&self) -> (res: &ErrorKind)
        ensures
            *res == self.kind,
    {
        &self.kind
    }

    /// The text in which this error occurred.
    pub fn text(&self) -> (res: &str)
        ensures
            res@ == self.text@,
    {
        self.text.as_str()
    }

    /// The span at which this error occurred.
    pub fn span(&self) -> (res: &Span)
        ensures
            *res == self.span,
    {
        &self.span
    }
}

impl Error {
    /// The human readable report of this error.
    pub fn to_string(&self) -> (res: String)
        requires
            formattable(self.text@, self.span),
        ensures
            res@ == formatted(self.text@, self.kind.spec_message(), self.span),
    {
        let m = self.kind.message();
        Formatter::new(self.text.as_str(), m.as_str(), &self.span).to_string()
    }
}

impl ErrorKind {
    /// The message that describes this kind of error.
    pub fn message(&self) -> (res: String)
        ensures
            res@ == self.spec_message(),
    {
        match self {
            ErrorKind::IdentifierCharInvalid(c) => {
                let mut s = String::new();
                crate::text::push_str(&mut s, "invalid identifier: ");
                let d = crate::text::char_debug(*c);
                crate::text::push_str(&mut s, d.as_str());
                s
            },
        }
    }

    /// The message that describes this kind of error.
    pub open spec fn spec_message(&self) -> Seq<char> {
        match self {
            ErrorKind::IdentifierCharInvalid(c) => "invalid identifier: "@ + crate::text::debug_of(*c),
        }
    }
}

/// The type of a token.
#[derive(Clone, Copy, Debug, PartialEq, Eq, Structural)]
pub enum TokenKind {
    /// The `├` character.
    Tee,
    /// The `└` character.
    Corner,
    /// A word: a run of characters up to white space that is no keyword.
    Word,
    /// The `when` keyword.
    When,
    /// The `given` keyword.
    Given,
    /// The `it` keyword.
    It,
}

/// A single unit of meaning in a `.tree` text: its kind, the span where it
/// occurs and the text that it stands for.
#[derive(Clone, Debug, PartialEq, Eq)]
pub struct Token {
    /// The kind of this token.
    pub kind: TokenKind,
    /// Where the token occurs.
    pub span: Span,
    /// The text of the token.
    pub lexeme: String,
}

/// A token as a mathematical value.
pub struct SpecToken {
    /// The kind of the token.
    pub kind: TokenKind,
    /// Where the token occurs.
    pub span: Span,
    /// The text of the token.
    pub lexeme: Seq<char>,
}

impl View for Token {
    type V = SpecToken;

    open spec fn view(&self) -> SpecToken {
        SpecToken { kind: self.kind, span: self.span, lexeme: self.lexeme@ }
    }
}

/// The views of a sequence of tokens.
pub open spec fn tokens_view(ts: Seq<Token>) -> Seq<SpecToken> {
    Seq::new(ts.len(), |i: int| ts[i]@)
}

/// An error of tokenizing as a mathematical value: where it happened and
/// the offending character.
pub struct SpecError {
    /// The span of the error.
    pub span: Span,
    /// The invalid character.
    pub ch: char,
}

/// The number of UTF-8 bytes of `t`.
pub open spec fn bytes_len(t: Seq<char>) -> nat
    decreases t.len(),
{
    if t.len() == 0 {
        0
    } else {
        bytes_len(t.drop_last()) + utf8_width(t.last())
    }
}

/// Texts whose positions fit in machine words.
pub open spec fn text_fits(t: Seq<char>) -> bool {
    bytes_len(t) < usize::MAX
}

/// The position after reading `c` at position `p`.
pub open spec fn advance(p: Position, c: char) -> Position {
    if c == '\n' {
        Position {
            offset: (p.offset + utf8_width(c)) as usize,
            line: (p.line + 1) as usize,
            column: 1,
        }
    } else {
        Position {
            offset: (p.offset + utf8_width(c)) as usize,
            line: p.line,
            column: (p.column + 1) as usize,
        }
    }
}

/// The position of the character at index `i` of `t`.
pub open spec fn pos_at(t: Seq<char>, i: int) -> Position
    decreases i,
{
    if i <= 0 {
        Position { offset: 0, line: 1, column: 1 }
    } else {
        advance(pos_at(t, i - 1), t[i - 1])
    }
}

/// Whether `c` may appear in an identifier: an alphanumeric character, `_`,
/// `-` (emitted as `_`), `'` or `"` (dropped when emitted).
pub open spec fn valid_identifier_char(c: char) -> bool {
    alphanumeric(c) || c == '_' || c == '-' || c == '\'' || c == '"'
}

/// Where the word that starts at `i` ends: `Ok` with the index of its last
/// character, or `Err` with the index of the first character that is not
/// valid in identifier mode.
pub open spec fn word_end(t: Seq<char>, i: int, ident: bool) -> Result<int, int>
    decreases t.len() - i,
{
    if i < 0 || i >= t.len() {
        Ok(i)
    } else if ident && !valid_identifier_char(t[i]) {
        Err(i)
    } else if i + 1 >= t.len() || is_ws(t[i + 1]) {
        Ok(i)
    } else {
        word_end(t, i + 1, ident)
    }
}

/// The index of the last character of a comment that starts at `i`: the
/// character before the next newline, or the last character of `t`.
pub open spec fn comment_end(t: Seq<char>, i: int) -> int
    decreases t.len() - i,
{
    if i < 0 || i + 1 >= t.len() || t[i + 1] == '\n' {
        i
    } else {
        comment_end(t, i + 1)
    }
}

/// The kind of a word, matched case-insensitively against the keywords.
pub open spec fn word_kind(lexeme: Seq<char>) -> TokenKind {
    let l = str_lower_of(lexeme);
    if l == seq!['w', 'h', 'e', 'n'] {
        TokenKind::When
    } else if l == seq!['i', 't'] {
        TokenKind::It
    } else if l == seq!['g', 'i', 'v', 'e', 'n'] {
        TokenKind::Given
    } else {
        TokenKind::Word
    }
}

/// The kind of a word of ASCII characters: its letters, in any case,
/// matched against the keywords.
pub open spec fn ascii_word_kind(lexeme: Seq<char>) -> TokenKind {
    let l = ascii_lowered(lexeme);
    if l == seq!['w', 'h', 'e', 'n'] {
        TokenKind::When
    } else if l == seq!['i', 't'] {
        TokenKind::It
    } else if l == seq!['g', 'i', 'v', 'e', 'n'] {
        TokenKind::Given
    } else {
        TokenKind::Word
    }
}

/// Every token of `ts` whose lexeme is ASCII has the kind that its letters,
/// in any case, give.
pub open spec fn ascii_kinds_hold(ts: Seq<SpecToken>) -> bool {
    forall|k: int| 0 <= k < ts.len() && is_ascii_text(#[trigger] ts[k].lexeme) ==> ts[k].kind == ascii_word_kind(
        ts[k].lexeme,
    )
}

/// `r` with `ts` put in front of its tokens.
pub open spec fn prepend(ts: Seq<SpecToken>, r: Result<Seq<SpecToken>, SpecError>) -> Result<
    Seq<SpecToken>,
    SpecError,
> {
    match r {
        Ok(s) => Ok(ts + s),
        Err(e) => Err(e),
    }
}

/// The tokens of `t` from index `i` on, where `ident` tells whether the
/// scanner is in identifier mode, and `branch` whether the last token was a
/// branch. A `when` or `given` keyword right after a branch starts
/// identifier mode, which lasts until the end of the line or a comment.
///
/// Spaces and the `─` and `│` drawing characters separate tokens, but in
/// identifier mode a drawing character is an invalid identifier character; a
/// newline, tab or carriage return also ends identifier mode; `├` and `└`
/// are tokens of their own; `//` starts a comment up to the end of the line;
/// anything else starts a word that runs up to the next white space.
pub open spec fn tokens_from(t: Seq<char>, i: int, ident: bool, branch: bool) -> Result<
    Seq<SpecToken>,
    SpecError,
>
    decreases t.len() - i,
{
    if i < 0 || i >= t.len() {
        Ok(Seq::empty())
    } else {
        let c = t[i];
        let p = pos_at(t, i);
        if (c == '─' || c == '│') && ident {
            Err(SpecError { span: Span { start: p, end: p }, ch: c })
        } else if c == ' ' || c == '─' || c == '│' {
            tokens_from(t, i + 1, ident, branch)
        } else if c == '\n' || c == '\t' || c == '\r' {
            tokens_from(t, i + 1, false, branch)
        } else if c == '├' {
            prepend(
                seq![SpecToken { kind: TokenKind::Tee, span: Span { start: p, end: p }, lexeme: seq!['├'] }],
                tokens_from(t, i + 1, ident, true),
            )
        } else if c == '└' {
            prepend(
                seq![SpecToken { kind: TokenKind::Corner, span: Span { start: p, end: p }, lexeme: seq!['└'] }],
                tokens_from(t, i + 1, ident, true),
            )
        } else if c == '/' && i + 1 < t.len() && t[i + 1] == '/' {
            let j = comment_end(t, i);
            if i <= j < t.len() {
                tokens_from(t, j + 1, false, branch)
            } else {
                Ok(Seq::empty())
            }
        } else {
            match word_end(t, i, ident) {
                Err(k) => Err(SpecError { span: Span { start: pos_at(t, k), end: pos_at(t, k) }, ch: t[k] }),
                Ok(j) => if i <= j < t.len() {
                    let lexeme = t.subrange(i, j + 1);
                    let kind = word_kind(lexeme);
                    let next_ident = ident || (branch && (kind == TokenKind::When || kind
                        == TokenKind::Given));
                    prepend(
                        seq![SpecToken { kind, span: Span { start: p, end: pos_at(t, j) }, lexeme }],
                        tokens_from(t, j + 1, next_ident, false),
                    )
                } else {
                    Ok(Seq::empty())
                },
            }
        }
    }
}

/// The tokens of a whole text.
pub open spec fn tokens_of(t: Seq<char>) -> Result<Seq<SpecToken>, SpecError> {
    tokens_from(t, 0, false, false)
}

/// Tokens whose spans are counted from one.
pub open spec fn tokens_counted(ts: Seq<SpecToken>) -> bool {
    forall|i: int| 0 <= i < ts.len() ==> counted_span(#[trigger] ts[i].span)
}

proof fn lemma_word_end_bounds(t: Seq<char>, i: int, ident: bool)
    requires
        0 <= i < t.len(),
    ensures
        word_end(t, i, ident) matches Err(k) ==> i <= k < t.len(),
    decreases t.len() - i,
{
    if !(ident && !valid_identifier_char(t[i])) && !(i + 1 >= t.len() || is_ws(t[i + 1])) {
        lemma_word_end_bounds(t, i + 1, ident);
    }
}

/// The tokens and the error of a text have spans counted from one.
pub proof fn lemma_tokens_counted(t: Seq<char>, i: int, ident: bool, branch: bool)
    requires
        text_fits(t),
        0 <= i,
    ensures
        match tokens_from(t, i, ident, branch) {
            Ok(ts) => tokens_counted(ts),
            Err(e) => counted_span(e.span),
        },
    decreases t.len() - i,
{
    if i < t.len() {
        let c = t[i];
        lemma_pos_at(t, i);
        if (c == '─' || c == '│') && ident {
        } else if c == ' ' || c == '─' || c == '│' {
            lemma_tokens_counted(t, i + 1, ident, branch);
        } else if c == '\n' || c == '\t' || c == '\r' {
            lemma_tokens_counted(t, i + 1, false, branch);
        } else if c == '├' || c == '└' {
            lemma_tokens_counted(t, i + 1, ident, true);
            let tok = SpecToken {
                kind: if c == '├' {
                    TokenKind::Tee
                } else {
                    TokenKind::Corner
                },
                span: Span { start: pos_at(t, i), end: pos_at(t, i) },
                lexeme: seq![c],
            };
            if let Ok(s) = tokens_from(t, i + 1, ident, true) {
                assert forall|k: int| 0 <= k < (seq![tok] + s).len() implies counted_span(#[trigger] (seq![tok] + s)[k].span) by {
                    if k > 0 {
                        assert((seq![tok] + s)[k] == s[k - 1]);
                    }
                }
            }
        } else if c == '/' && i + 1 < t.len() && t[i + 1] == '/' {
            let j = comment_end(t, i);
            if i <= j < t.len() {
                lemma_tokens_counted(t, j + 1, false, branch);
            }
        } else {
            lemma_word_end_bounds(t, i, ident);
            match word_end(t, i, ident) {
                Err(k) => {
                    lemma_pos_at(t, k);
                },
                Ok(j) => if i <= j < t.len() {
                    lemma_pos_at(t, j);
                    let lexeme = t.subrange(i, j + 1);
                    let kind = word_kind(lexeme);
                    let next_ident = ident || (branch && (kind == TokenKind::When || kind
                        == TokenKind::Given));
                    lemma_tokens_counted(t, j + 1, next_ident, false);
                    let tok = SpecToken { kind, span: Span { start: pos_at(t, i), end: pos_at(t, j) }, lexeme };
                    if let Ok(s) = tokens_from(t, j + 1, next_ident, false) {
                        assert forall|k: int| 0 <= k < (seq![tok] + s).len() implies counted_span(#[trigger] (seq![tok] + s)[k].span) by {
                            if k > 0 {
                                assert((seq![tok] + s)[k] == s[k - 1]);
                            }
                        }
                    }
                },
            }
        }
    }
}

proof fn lemma_bytes_len_concat(a: Seq<char>, b: Seq<char>)
    ensures
        bytes_len(a + b) == bytes_len(a) + bytes_len(b),
    decreases b.len(),
{
    if b.len() == 0 {
        assert(a + b =~= a);
    } else {
        lemma_bytes_len_concat(a, b.drop_last());
        assert((a + b).drop_last() =~= a + b.drop_last());
        assert((a + b).last() == b.last());
    }
}

/// The byte offset of the character at index `k` is where counting
/// characters finds index `k`.
proof fn lemma_offset_counts(t: Seq<char>, k: int)
    requires
        0 <= k <= t.len(),
    ensures
        crate::text::char_count_at(t, bytes_len(t.take(k)) as int) == Some(k),
    decreases t.len(),
{
    if k == 0 {
        assert(t.take(0) =~= Seq::<char>::empty());
    } else {
        let r = t.drop_first();
        assert(t.take(k) =~= seq![t[0]] + r.take(k - 1));
        lemma_bytes_len_concat(seq![t[0]], r.take(k - 1));
        assert(bytes_len(seq![t[0]]) == utf8_width(t[0])) by {
            let x = seq![t[0]];
            assert(x.drop_last() =~= Seq::<char>::empty());
            assert(bytes_len(x.drop_last()) == 0);
            assert(x.last() == t[0]);
        }
        lemma_offset_counts(r, k - 1);
    }
}

/// An error of tokenizing from index `i` is at some character from `i` on:
/// its span starts and ends at that character's position, and it holds
/// that character.
proof fn lemma_error_at(t: Seq<char>, i: int, ident: bool, branch: bool)
    requires
        0 <= i,
    ensures
        tokens_from(t, i, ident, branch) matches Err(e) ==> exists|k: int|
            #![trigger pos_at(t, k)]
            i <= k < t.len() && e.span == (Span { start: pos_at(t, k), end: pos_at(t, k) }) && e.ch == t[k],
    decreases t.len() - i,
{
    if i < t.len() {
        let c = t[i];
        if (c == '─' || c == '│') && ident {
            assert(pos_at(t, i) == pos_at(t, i));
        } else if c == ' ' || c == '─' || c == '│' {
            lemma_error_at(t, i + 1, ident, branch);
        } else if c == '\n' || c == '\t' || c == '\r' {
            lemma_error_at(t, i + 1, false, branch);
        } else if c == '├' || c == '└' {
            lemma_error_at(t, i + 1, ident, true);
        } else if c == '/' && i + 1 < t.len() && t[i + 1] == '/' {
            let j = comment_end(t, i);
            if i <= j < t.len() {
                lemma_error_at(t, j + 1, false, branch);
            }
        } else {
            lemma_word_end_bounds(t, i, ident);
            match word_end(t, i, ident) {
                Err(k) => {
                    assert(pos_at(t, k) == pos_at(t, k));
                },
                Ok(j) => if i <= j < t.len() {
                    let lexeme = t.subrange(i, j + 1);
                    let kind = word_kind(lexeme);
                    let next_ident = ident || (branch && (kind == TokenKind::When || kind
                        == TokenKind::Given));
                    lemma_error_at(t, j + 1, next_ident, false);
                },
            }
        }
    }
}

/// A tokenizing error points at the offending character: its span is one
/// position, the byte offset of that position is where the character
/// starts in the text, and the error holds that character.
pub proof fn law_error_points_at_char(t: Seq<char>)
    requires
        text_fits(t),
    ensures
        tokens_of(t) matches Err(e) ==> e.span.start == e.span.end && exists|k: int|
            #![trigger pos_at(t, k)]
            0 <= k < t.len() && e.span.start == pos_at(t, k) && crate::text::char_count_at(
                t,
                e.span.start.offset as int,
            ) == Some(k) && e.ch == t[k],
{
    lemma_error_at(t, 0, false, false);
    if let Err(e) = tokens_of(t) {
        let k = choose|k: int| #![trigger pos_at(t, k)]
            0 <= k < t.len() && e.span == (Span { start: pos_at(t, k), end: pos_at(t, k) }) && e.ch == t[k];
        lemma_pos_at(t, k);
        lemma_offset_counts(t, k);
    }
}

/// Whether a lexeme begins with `//`.
pub open spec fn starts_comment(l: Seq<char>) -> bool {
    l.len() >= 2 && l[0] == '/' && l[1] == '/'
}

proof fn lemma_comments_stripped(t: Seq<char>, i: int, ident: bool, branch: bool)
    requires
        0 <= i,
    ensures
        tokens_from(t, i, ident, branch) matches Ok(ts) ==> forall|k: int|
            0 <= k < ts.len() ==> !starts_comment(#[trigger] ts[k].lexeme),
    decreases t.len() - i,
{
    if i < t.len() {
        let c = t[i];
        if (c == '─' || c == '│') && ident {
        } else if c == ' ' || c == '─' || c == '│' {
            lemma_comments_stripped(t, i + 1, ident, branch);
        } else if c == '\n' || c == '\t' || c == '\r' {
            lemma_comments_stripped(t, i + 1, false, branch);
        } else if c == '├' || c == '└' {
            lemma_comments_stripped(t, i + 1, ident, true);
            if let Ok(s) = tokens_from(t, i + 1, ident, true) {
                let tok = tokens_from(t, i, ident, branch)->Ok_0[0];
                assert forall|k: int| 0 <= k < (seq![tok] + s).len() implies !starts_comment(#[trigger] (seq![tok] + s)[k].lexeme) by {
                    if k > 0 {
                        assert((seq![tok] + s)[k] == s[k - 1]);
                    }
                }
            }
        } else if c == '/' && i + 1 < t.len() && t[i + 1] == '/' {
            let j = comment_end(t, i);
            if i <= j < t.len() {
                lemma_comments_stripped(t, j + 1, false, branch);
            }
        } else {
            match word_end(t, i, ident) {
                Err(_) => {},
                Ok(j) => if i <= j < t.len() {
                    let lexeme = t.subrange(i, j + 1);
                    let kind = word_kind(lexeme);
                    let next_ident = ident || (branch && (kind == TokenKind::When || kind
                        == TokenKind::Given));
                    lemma_comments_stripped(t, j + 1, next_ident, false);
                    let tok = SpecToken { kind, span: Span { start: pos_at(t, i), end: pos_at(t, j) }, lexeme };
                    assert(!starts_comment(lexeme)) by {
                        if lexeme.len() >= 2 {
                            assert(lexeme[0] == t[i] && lexeme[1] == t[i + 1]);
                        }
                    }
                    if let Ok(s) = tokens_from(t, j + 1, next_ident, false) {
                        assert forall|k: int| 0 <= k < (seq![tok] + s).len() implies !starts_comment(#[trigger] (seq![tok] + s)[k].lexeme) by {
                            if k > 0 {
                                assert((seq![tok] + s)[k] == s[k - 1]);
                            }
                        }
                    }
                },
            }
        }
    }
}

/// Comments are stripped: no token of a text begins with `//`.
pub proof fn law_comments_stripped(t: Seq<char>)
    ensures
        tokens_of(t) matches Ok(ts) ==> forall|k: int| 0 <= k < ts.len() ==> !starts_comment(#[trigger] ts[k].lexeme),
{
    lemma_comments_stripped(t, 0, false, false);
}

/// Keywords are case-insensitive: two words with the same lower case form
/// are tokens of the same kind.
pub proof fn law_keywords_case_insensitive(a: Seq<char>, b: Seq<char>)
    requires
        str_lower_of(a) == str_lower_of(b),
    ensures
        word_kind(a) == word_kind(b),
{
}

/// Keywords are case-insensitive: a word of ASCII characters is the `it`
/// keyword exactly when it is `it`, `It`, `iT` or `IT`. (`Tokenizer::tokenize`
/// gives every ASCII word the kind that `ascii_word_kind` gives it.)
pub proof fn law_it_in_any_case(w: Seq<char>)
    requires
        crate::text::is_ascii_text(w),
    ensures
        (ascii_word_kind(w) == TokenKind::It) <==> (w.len() == 2 && (w[0] == 'i' || w[0] == 'I') && (w[1] == 't'
            || w[1] == 'T')),
{
    let l = ascii_lowered(w);
    assert(l.len() == w.len());
    if w.len() == 2 {
        assert(l[0] == crate::text::ascii_lower(w[0]));
        assert(l[1] == crate::text::ascii_lower(w[1]));
        if (w[0] == 'i' || w[0] == 'I') && (w[1] == 't' || w[1] == 'T') {
            assert(l =~= seq!['i', 't']);
        } else {
            assert(l != seq!['i', 't']) by {
                if l == seq!['i', 't'] {
                    assert(l[0] == 'i' && l[1] == 't');
                }
            }
        }
    } else {
        assert(l != seq!['i', 't']) by {
            if l == seq!['i', 't'] {
                assert(l.len() == 2);
            }
        }
    }
}

proof fn lemma_prepend(a: Seq<SpecToken>, b: Seq<SpecToken>, r: Result<Seq<SpecToken>, SpecError>)
    ensures
        prepend(a, prepend(b, r)) == prepend(a + b, r),
{
    match r {
        Ok(s) => {
            assert(a + (b + s) =~= (a + b) + s);
        },
        Err(e) => {},
    }
}

proof fn lemma_bytes_len_take(t: Seq<char>, i: int)
    requires
        0 <= i < t.len(),
    ensures
        bytes_len(t.take(i + 1)) == bytes_len(t.take(i)) + utf8_width(t[i]),
        bytes_len(t.take(i + 1)) <= bytes_len(t),
    decreases t.len() - i,
{
    assert(t.take(i + 1).drop_last() =~= t.take(i));
    if i + 1 < t.len() {
        lemma_bytes_len_take(t, i + 1);
    } else {
        assert(t.take(i + 1) =~= t);
    }
}

/// The position of index `i` is what counting bytes, newlines and columns
/// gives, with no wrap-around.
proof fn lemma_pos_at(t: Seq<char>, i: int)
    requires
        0 <= i <= t.len(),
        text_fits(t),
    ensures
        pos_at(t, i).offset == bytes_len(t.take(i)),
        1 <= pos_at(t, i).line <= i + 1,
        1 <= pos_at(t, i).column <= i + 1,
        bytes_len(t.take(i)) <= bytes_len(t),
        i <= bytes_len(t.take(i)),
    decreases i,
{
    if i == 0 {
        assert(t.take(0) =~= Seq::<char>::empty());
    } else {
        lemma_pos_at(t, i - 1);
        lemma_bytes_len_take(t, i - 1);
    }
}

/// A tokenizer for `.tree` texts.
pub struct Tokenizer {
    /// The position of the tokenizer in the last input.
    pos: Position,
    /// Whether the tokenizer is in identifier mode.
    identifier_mode: bool,
}

impl Tokenizer {
    /// The position of the tokenizer.
    pub closed spec fn position(&self) -> Position {
        self.pos
    }

    /// Whether the tokenizer is in identifier mode.
    pub closed spec fn in_identifier_mode(&self) -> bool {
        self.identifier_mode
    }

    /// Creates a new tokenizer, at the start of a text and in identifier
    /// mode.
    pub fn new() -> (res: Self)
        ensures
            res.position() == (Position { offset: 0, line: 1, column: 1 }),
            res.in_identifier_mode(),
    {
        Tokenizer { pos: Position { offset: 0, line: 1, column: 1 }, identifier_mode: true }
    }

    /// Tokenizes a `.tree` text.
    ///
    /// The result is the token sequence that `tokens_of` describes, or the
    /// error at the first character that is invalid in identifier mode.
    pub fn tokenize(&mut self, text: &str) -> (res: Result<Vec<Token>, Error>)
        requires
            text_fits(text@),
        ensures
            *final(self) == *old(self),
            match res {
                Ok(ts) => tokens_of(text@) == Ok::<Seq<SpecToken>, SpecError>(tokens_view(ts@))
                    && ascii_kinds_hold(tokens_view(ts@)),
                Err(e) => tokens_of(text@) == Err::<Seq<SpecToken>, SpecError>(
                    SpecError { span: e.span, ch: e.kind->IdentifierCharInvalid_0 },
                ) && e.text@ == text@,
            },
    {
        let t = chars_of(text);
        tokenize_chars(text, t.as_slice())
    }
}

/// Whether `c` may appear in an identifier.
fn is_valid_identifier_char(c: char) -> (res: bool)
    ensures
        res == valid_identifier_char(c),
{
    is_alphanumeric(c) || c == '_' || c == '-' || c == '\'' || c == '"'
}

/// The position after reading `c` at position `p`.
fn advance_exec(p: Position, c: char) -> (res: Position)
    requires
        p.offset + utf8_width(c) <= usize::MAX,
        p.line < usize::MAX,
        p.column < usize::MAX,
    ensures
        res == advance(p, c),
{
    let w = char_width(c);
    if c == '\n' {
        Position { offset: p.offset + w, line: p.line + 1, column: 1 }
    } else {
        Position { offset: p.offset + w, line: p.line, column: p.column + 1 }
    }
}

/// The kind of a word.
fn word_kind_exec(lexeme: &str) -> (res: TokenKind)
    ensures
        res == word_kind(lexeme@),
        is_ascii_text(lexeme@) ==> res == ascii_word_kind(lexeme@),
{
    let l = str_to_lowercase(lexeme);
    let lv = chars_of(l.as_str());
    let when = vec!['w', 'h', 'e', 'n'];
    let it = vec!['i', 't'];
    let given = vec!['g', 'i', 'v', 'e', 'n'];
    assert(when@ =~= seq!['w', 'h', 'e', 'n']);
    assert(it@ =~= seq!['i', 't']);
    assert(given@ =~= seq!['g', 'i', 'v', 'e', 'n']);
    if chars_eq(lv.as_slice(), when.as_slice()) {
        TokenKind::When
    } else if chars_eq(lv.as_slice(), it.as_slice()) {
        TokenKind::It
    } else if chars_eq(lv.as_slice(), given.as_slice()) {
        TokenKind::Given
    } else {
        TokenKind::Word
    }
}

/// Skips a comment that starts at index `i`: the index and position of its
/// last character.
fn scan_comment(t: &[char], i: usize, pos: Position) -> (res: (usize, Position))
    requires
        i < t@.len(),
        text_fits(t@),
        pos == pos_at(t@, i as int),
    ensures
        res.0 == comment_end(t@, i as int),
        i <= res.0 < t@.len(),
        res.1 == pos_at(t@, res.0 as int),
{
    let n = t.len();
    let mut j = i;
    let mut p = pos;
    while j + 1 < n && t[j + 1] != '\n'
        invariant
            n == t@.len(),
            text_fits(t@),
            i <= j < n,
            p == pos_at(t@, j as int),
            comment_end(t@, i as int) == comment_end(t@, j as int),
        decreases n - j,
    {
        proof {
            lemma_pos_at(t@, j as int);
            lemma_pos_at(t@, (j + 1) as int);
            lemma_bytes_len_take(t@, j as int);
        }
        p = advance_exec(p, t[j]);
        j = j + 1;
    }
    (j, p)
}

/// Scans the word that starts at index `i`: the token, and the index and
/// position of its last character; or the error at the first character that
/// is invalid in identifier mode.
fn scan_word(text: &str, t: &[char], i: usize, ident: bool, pos: Position) -> (res: Result<
    (Token, usize, Position),
    Error,
>)
    requires
        i < t@.len(),
        text_fits(t@),
        pos == pos_at(t@, i as int),
    ensures
        match res {
            Ok((tok, j, pj)) => {
                &&& word_end(t@, i as int, ident) == Ok::<int, int>(j as int)
                &&& i <= j < t@.len()
                &&& pj == pos_at(t@, j as int)
                &&& tok@ == (SpecToken {
                    kind: word_kind(t@.subrange(i as int, j + 1)),
                    span: Span { start: pos, end: pj },
                    lexeme: t@.subrange(i as int, j + 1),
                })
                &&& is_ascii_text(tok@.lexeme) ==> tok@.kind == ascii_word_kind(tok@.lexeme)
            },
            Err(e) => {
                &&& word_end(t@, i as int, ident) matches Err(k)
                &&& 0 <= k < t@.len()
                &&& e.span == (Span { start: pos_at(t@, k), end: pos_at(t@, k) })
                &&& e.kind == ErrorKind::IdentifierCharInvalid(t@[k])
                &&& e.text@ == text@
            },
        },
{
    let n = t.len();
    let mut j = i;
    let mut p = pos;
    let mut lexeme = String::new();
    loop
        invariant
            n == t@.len(),
            text_fits(t@),
            i <= j < n,
            p == pos_at(t@, j as int),
            word_end(t@, i as int, ident) == word_end(t@, j as int, ident),
            lexeme@ == t@.subrange(i as int, j as int),
        decreases n - j,
    {
        let c = t[j];
        if ident && !is_valid_identifier_char(c) {
            let mut msg = String::new();
            crate::text::push_str(&mut msg, text);
            return Err(Error { kind: ErrorKind::IdentifierCharInvalid(c), text: msg, span: Span { start: p, end: p } });
        }
        push_char(&mut lexeme, c);
        assert(lexeme@ =~= t@.subrange(i as int, j + 1));
        if j + 1 >= n || is_whitespace(t[j + 1]) {
            let kind = word_kind_exec(lexeme.as_str());
            return Ok((Token { kind, span: Span { start: pos, end: p }, lexeme }, j, p));
        }
        proof {
            lemma_pos_at(t@, j as int);
            lemma_pos_at(t@, (j + 1) as int);
            lemma_bytes_len_take(t@, j as int);
        }
        p = advance_exec(p, c);
        j = j + 1;
    }
}

/// Tokenizes `t`, the characters of `text`.
fn tokenize_chars(text: &str, t: &[char]) -> (res: Result<Vec<Token>, Error>)
    requires
        t@ == text@,
        text_fits(t@),
    ensures
        match res {
            Ok(ts) => tokens_of(t@) == Ok::<Seq<SpecToken>, SpecError>(tokens_view(ts@))
                && ascii_kinds_hold(tokens_view(ts@)),
            Err(e) => tokens_of(t@) == Err::<Seq<SpecToken>, SpecError>(
                SpecError { span: e.span, ch: e.kind->IdentifierCharInvalid_0 },
            ) && e.text@ == text@,
        },
{
    let n = t.len();
    let mut tokens: Vec<Token> = Vec::new();
    let mut i: usize = 0;
    let mut pos = Position { offset: 0, line: 1, column: 1 };
    let mut ident = false;
    let mut branch = false;
    while i < n
        invariant
            n == t@.len(),
            t@ == text@,
            text_fits(t@),
            i <= n,
            pos == pos_at(t@, i as int),
            tokens_of(t@) == prepend(tokens_view(tokens@), tokens_from(t@, i as int, ident, branch)),
            ascii_kinds_hold(tokens_view(tokens@)),
        decreases n - i,
    {
        proof {
            lemma_pos_at(t@, i as int);
            lemma_pos_at(t@, (i + 1) as int);
            lemma_bytes_len_take(t@, i as int);
        }
        let c = t[i];
        let ghost old_tokens = tokens_view(tokens@);
        if (c == '─' || c == '│') && ident {
            let mut msg = String::new();
            crate::text::push_str(&mut msg, text);
            return Err(Error { kind: ErrorKind::IdentifierCharInvalid(c), text: msg, span: Span { start: pos, end: pos } });
        } else if c == ' ' || c == '─' || c == '│' {
        } else if c == '\n' || c == '\t' || c == '\r' {
            ident = false;
        } else if c == '├' || c == '└' {
            let kind = if c == '├' {
                TokenKind::Tee
            } else {
                TokenKind::Corner
            };
            let mut lexeme = String::new();
            push_char(&mut lexeme, c);
            tokens.push(Token { kind, span: Span { start: pos, end: pos }, lexeme });
            assert(tokens_view(tokens@) =~= old_tokens + seq![tokens@.last()@]);
            proof {
                let nv = tokens_view(tokens@);
                assert(nv.last().lexeme[0] == c);
                assert(!is_ascii_text(nv.last().lexeme));
                assert forall|k: int| 0 <= k < nv.len() && is_ascii_text(#[trigger] nv[k].lexeme) implies nv[k].kind
                    == ascii_word_kind(nv[k].lexeme) by {
                    if k < old_tokens.len() {
                        assert(nv[k] == old_tokens[k]);
                    }
                }
            }
            proof {
                lemma_prepend(old_tokens, seq![tokens@.last()@], tokens_from(t@, i + 1, ident, true));
            }
            branch = true;
        } else if c == '/' && i + 1 < n && t[i + 1] == '/' {
            ident = false;
            let (j, pj) = scan_comment(t, i, pos);
            i = j;
            pos = pj;
            proof {
                lemma_pos_at(t@, i as int);
                lemma_pos_at(t@, (i + 1) as int);
                lemma_bytes_len_take(t@, i as int);
            }
        } else {
            match scan_word(text, t, i, ident, pos) {
                Err(e) => {
                    return Err(e);
                },
                Ok((tok, j, pj)) => {
                    let kind = tok.kind;
                    tokens.push(tok);
                    assert(tokens_view(tokens@) =~= old_tokens + seq![tokens@.last()@]);
                    proof {
                        let nv = tokens_view(tokens@);
                        assert forall|k: int| 0 <= k < nv.len() && is_ascii_text(#[trigger] nv[k].lexeme) implies nv[k].kind
                            == ascii_word_kind(nv[k].lexeme) by {
                            if k < old_tokens.len() {
                                assert(nv[k] == old_tokens[k]);
                            }
                        }
                    }
                    proof {
                        let next_ident = ident || (branch && (kind == TokenKind::When || kind
                            == TokenKind::Given));
                        lemma_prepend(old_tokens, seq![tokens@.last()@], tokens_from(t@, j + 1, next_ident, false));
                    }
                    if branch && (kind == TokenKind::When || kind == TokenKind::Given) {
                        ident = true;
                    }
                    branch = false;
                    i = j;
                    pos = pj;
                    proof {
                        lemma_pos_at(t@, i as int);
                        lemma_pos_at(t@, (i + 1) as int);
                        lemma_bytes_len_take(t@, i as int);
                    }
                },
            }
        }
        pos = advance_exec(pos, t[i]);
        i = i + 1;
    }
    Ok(tokens)
}

} // verus!
