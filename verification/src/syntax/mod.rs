//! The syntax of trees: from a tree in text form to an AST, with its
//! semantic analysis.
use vstd::prelude::*;

use crate::error::{carries_text, reportable, Error, Failure};
use crate::span::counted_span;
use ast::{Ast, SpecAst};
use parser::parse_tokens;
use semantics::{analyze_state, AnalyzerState};
use tokenizer::{text_fits, tokens_of};

pub mod ast;
pub mod parser;
pub mod semantics;
pub mod tokenizer;

verus! {

/// The outcome of compiling a tree text into an AST: the first error of
/// tokenizing, then of parsing, then all the errors of the semantic
/// analysis, if any.
pub open spec fn parse_text(t: Seq<char>) -> Result<SpecAst, Failure> {
    match tokens_of(t) {
        Err(e) => Err(Failure::Tokenize(e)),
        Ok(ts) => match parse_tokens(ts) {
            Err(e) => Err(Failure::Parse(e)),
            Ok(a) => {
                let st = analyze_state(AnalyzerState { text: t, errors: Seq::empty(), ids: Seq::empty() }, a);
                if st.errors.len() == 0 {
                    Ok(a)
                } else {
                    Err(Failure::Semantic(st.errors))
                }
            },
        },
    }
}

/// Compiling a tree text reports the error of the first stage that fails:
/// a tokenizing error first; then, on the tokens, a parsing error; then, on
/// the AST, the errors of a fresh semantic analysis; and otherwise gives the
/// parsed AST.
pub proof fn law_parse_stages(t: Seq<char>)
    ensures
        tokens_of(t) matches Err(e) ==> parse_text(t) == Err::<SpecAst, Failure>(Failure::Tokenize(e)),
        tokens_of(t) matches Ok(ts) ==> (parse_tokens(ts) matches Err(e) ==> parse_text(t) == Err::<
            SpecAst,
            Failure,
        >(Failure::Parse(e))),
        tokens_of(t) matches Ok(ts) ==> (parse_tokens(ts) matches Ok(a) ==> {
            let es = analyze_state(AnalyzerState { text: t, errors: Seq::empty(), ids: Seq::empty() }, a).errors;
            &&& es.len() > 0 ==> parse_text(t) == Err::<SpecAst, Failure>(Failure::Semantic(es))
            &&& es.len() == 0 ==> parse_text(t) == Ok::<SpecAst, Failure>(a)
        }),
{
}

/// Every failure of compiling a tree text points at positions counted from
/// one, or at nowhere: its report can always be given.
pub proof fn law_parse_failures_counted(t: Seq<char>)
    requires
        text_fits(t),
    ensures
        match parse_text(t) {
            Err(Failure::Tokenize(e)) => counted_span(e.span),
            Err(Failure::Parse(e)) => counted_span(e.span) || e.span == parser::zero_span(),
            Err(Failure::Semantic(es)) => forall|i: int| 0 <= i < es.len() ==> counted_span(#[trigger] es[i].span),
            _ => true,
        },
{
    tokenizer::lemma_tokens_counted(t, 0, false, false);
    match tokens_of(t) {
        Ok(ts) => {
            parser::lemma_parse_counted(ts);
            match parse_tokens(ts) {
                Ok(a) => {
                    let st0 = AnalyzerState { text: t, errors: Seq::empty(), ids: Seq::empty() };
                    semantics::lemma_analyze_counted(st0, a);
                },
                Err(_) => {},
            }
        },
        Err(_) => {},
    }
}

/// Parses a tree text into an AST and checks its semantics.
pub fn parse(text: &str) -> (res: Result<Ast, Error>)
    requires
        text_fits(text@),
    ensures
        match res {
            Ok(a) => parse_text(text@) == Ok::<SpecAst, Failure>(a@),
            Err(e) => parse_text(text@) == Err::<SpecAst, Failure>(e@) && carries_text(e, text@)
                && reportable(e),
        },
{
    proof {
        law_parse_failures_counted(text@);
    }
    let mut tokenizer = tokenizer::Tokenizer::new();
    let tokens = match tokenizer.tokenize(text) {
        Ok(ts) => ts,
        Err(e) => return Err(Error::Tokenize(e)),
    };
    let mut parser = parser::Parser::new();
    let ast = match parser.parse(text, tokens.as_slice()) {
        Ok(a) => a,
        Err(e) => return Err(Error::Parse(e)),
    };
    let mut analyzer = semantics::SemanticAnalyzer::new(text);
    proof {
        semantics::lemma_analyze_text(analyzer@, ast@);
    }
    match analyzer.analyze(&ast) {
        Ok(()) => Ok(ast),
        Err(es) => {
            proof {
                let v = semantics::errors_view(es.0@);
                assert forall|i: int| 0 <= i < es.0@.len() implies crate::error::formattable(
                    #[trigger] es.0@[i].text@,
                    es.0@[i].span,
                ) by {
                    assert(v[i] == es.0@[i]@);
                    assert(counted_span(v[i].span));
                }
            }
            Err(Error::Semantic(es))
        },
    }
}

} // verus!
