//! Tokenizer and precedence-climbing parser for a small language of
//! mathematical expressions: numbers, complex literals, identifiers,
//! operators, matrices, ranges, indexing, function calls and definitions,
//! derivatives by primes, and calculus forms (`sum[..]`, `prod[..]`,
//! `int[..]`, `diff[..]`, `lim[..]`).
use vstd::prelude::*;

pub mod chars;
pub mod tokenized;
pub mod ast;
pub mod parsed;
pub mod laws;
pub mod messages;

use ast::{Node, NodeView};
use parsed::{ParseError, ParseErrorView, Parser};
use tokenized::{tokenizez, tokens_view, TokenizeError};

verus! {

/// Why a text is not an expression: it could not be tokenized, or its
/// tokens could not be parsed.
#[derive(Debug, PartialEq)]
pub enum SyntaxError {
    Tokenize(TokenizeError),
    Parse(ParseError),
}

/// The mathematical value of a syntax error.
pub enum SyntaxErrorView {
    Tokenize(TokenizeError),
    Parse(ParseErrorView),
}

impl View for SyntaxError {
    type V = SyntaxErrorView;

    open spec fn view(&self) -> SyntaxErrorView {
        match self {
            SyntaxError::Tokenize(e) => SyntaxErrorView::Tokenize(*e),
            SyntaxError::Parse(e) => SyntaxErrorView::Parse(e@),
        }
    }
}

/// The expression that `input` reads as: its tokens, parsed from the first.
pub open spec fn parse_text_spec(input: Seq<char>) -> Result<NodeView, SyntaxErrorView> {
    match tokenized::tokenize_spec(input) {
        Err(e) => Err(SyntaxErrorView::Tokenize(e)),
        Ok(ts) => match parsed::parse_spec(ts, 0).0 {
            Ok(n) => Ok(n),
            Err(e) => Err(SyntaxErrorView::Parse(e)),
        },
    }
}

/// Tokenizes `input` and parses its tokens into one expression.
pub fn parse(input: &str) -> (r: Result<Node, SyntaxError>)
    ensures
        tokenized::classes_consistent(tokenized::classes_of(input@)),
        match r {
            Ok(n) => parse_text_spec(input@) == Ok::<NodeView, SyntaxErrorView>(n@),
            Err(e) => parse_text_spec(input@) == Err::<NodeView, SyntaxErrorView>(e@),
        },
{
    let tokens = match tokenizez(input) {
        Ok(t) => t,
        Err(e) => {
            return Err(SyntaxError::Tokenize(e));
        },
    };
    proof {
        laws::law_tokens_feed_parser(tokens_view(tokens@));
    }
    let mut parser = Parser::new(tokens);
    match parser.parse() {
        Ok(n) => Ok(n),
        Err(e) => Err(SyntaxError::Parse(e)),
    }
}

} // verus!
