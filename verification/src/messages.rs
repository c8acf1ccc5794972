//! The messages that errors read as. A message that shows a real or complex
//! literal is left to the caller, who formats the literal's `f64` value.
use vstd::prelude::*;

use crate::chars::push_char;
use crate::parsed::{Expectation, ParseError, ParseErrorView};
use crate::tokenized::{Operators, Token, TokenView, TokenizeError};
use crate::{SyntaxError, SyntaxErrorView};

verus! {

/// The decimal digit of `d`, for `0 <= d < 10`.
pub open spec fn digit_char(d: int) -> char {
    seq!['0', '1', '2', '3', '4', '5', '6', '7', '8', '9'][d]
}

/// The decimal digits of `n`, most significant first, without leading
/// zeros (`0` is the single digit `0`).
pub open spec fn decimal_digits(n: nat) -> Seq<char>
    decreases n,
{
    if n < 10 {
        seq![digit_char(n as int)]
    } else {
        decimal_digits(n / 10).push(digit_char((n % 10) as int))
    }
}

/// An integer in decimal, with a `-` before a negative one.
pub open spec fn integer_text(n: int) -> Seq<char> {
    if n < 0 {
        seq!['-'] + decimal_digits((-n) as nat)
    } else {
        decimal_digits(n as nat)
    }
}

/// What `<str as Debug>::fmt` writes for a string: the string in double
/// quotes, with its special characters escaped.
pub uninterp spec fn str_debug_text(s: Seq<char>) -> Seq<char>;

/// The name of an operator, as its variant is written.
pub open spec fn operator_name(op: Operators) -> Seq<char> {
    match op {
        Operators::Plus => "Plus"@,
        Operators::Minus => "Minus"@,
        Operators::Star => "Star"@,
        Operators::Slash => "Slash"@,
        Operators::Caret => "Caret"@,
        Operators::Comma => "Comma"@,
        Operators::Equal => "Equal"@,
        Operators::Colon => "Colon"@,
        Operators::Semicolon => "Semicolon"@,
        Operators::Ampersand => "Ampersand"@,
        Operators::Pipe => "Pipe"@,
        Operators::Exclamation => "Exclamation"@,
        Operators::RangeDots => "RangeDots"@,
        Operators::Prime => "Prime"@,
        Operators::LParen => "LParen"@,
        Operators::RParen => "RParen"@,
        Operators::LBracket => "LBracket"@,
        Operators::RBracket => "RBracket"@,
        Operators::LessThan => "LessThan"@,
        Operators::GreaterThan => "GreaterThan"@,
        Operators::LessEqual => "LessEqual"@,
        Operators::GreaterEqual => "GreaterEqual"@,
        Operators::DoubleEqual => "DoubleEqual"@,
        Operators::NotEqual => "NotEqual"@,
    }
}

/// How a token reads in a message: its variant and its contents. A real or
/// complex literal shows its `f64` value, which is not this library's to
/// format: for those there is no text here.
pub open spec fn token_text(t: TokenView) -> Option<Seq<char>> {
    match t {
        TokenView::Integer(n) => Some("Integer("@ + integer_text(n as int) + ")"@),
        TokenView::Number(_) => None,
        TokenView::Complex(_, _) => None,
        TokenView::Identifier(s) => Some("Identifier("@ + str_debug_text(s) + ")"@),
        TokenView::Operator(op) => Some("Operator("@ + operator_name(op) + ")"@),
        TokenView::EOF => Some("EOF"@),
    }
}

/// The message of a tokenizer error.
pub open spec fn tokenize_error_text(e: TokenizeError) -> Seq<char> {
    match e {
        TokenizeError::InvalidComplex => "Invalid complex number"@,
        TokenizeError::InvalidNumber => "Invalid number"@,
        TokenizeError::UnknownCharacter(c) => "Unknown character: "@.push(c),
        TokenizeError::MissingExponentDigits => "Scientific notation lacks exponent digits"@,
    }
}

/// The message of a missing token.
pub open spec fn expectation_text(e: Expectation) -> Seq<char> {
    match e {
        Expectation::IndexClose => "Expected ']' at the end of matrix index"@,
        Expectation::SumEquals => "Expected '=' after variable in sum/prod"@,
        Expectation::SumBoundsClose => "Expected ']' after bounds"@,
        Expectation::SumBodyOpen => "Expected '(' before body"@,
        Expectation::SumBodyClose => "Expected ')' after body"@,
        Expectation::IntegralBoundsComma => "Expected ',' between integral bounds"@,
        Expectation::IntegralBoundsClose => "Expected ']' after integral bounds"@,
        Expectation::IntegralBodyOpen => "Expected '(' before integral body"@,
        Expectation::IntegralBodyClose => "Expected ')' after integral body"@,
        Expectation::IntegralVariableClose => "Expected ']' after integral variable"@,
        Expectation::LimitArrow => "Expected '->' in limit definition"@,
        Expectation::LimitClose => "Expected ']' after limit definition"@,
        Expectation::LimitBodyOpen => "Expected '(' before limit body"@,
        Expectation::LimitBodyClose => "Expected ')' after limit body"@,
        Expectation::DiffClose => "Expected ']' after diff specification"@,
        Expectation::OpenParen => "Expected '('"@,
        Expectation::CloseParen => "Expected ')'"@,
        Expectation::OpenBracket => "Expected '['"@,
        Expectation::DefinitionEquals => "Expected '=' in function definition"@,
    }
}

/// `prefix` followed by the text of token `t`, where the token has one.
pub open spec fn with_token(prefix: Seq<char>, t: TokenView) -> Option<Seq<char>> {
    match token_text(t) {
        Some(x) => Some(prefix + x),
        None => None,
    }
}

/// The message of a parse error; none where it shows a real or complex
/// literal.
pub open spec fn parse_error_text(e: ParseErrorView) -> Option<Seq<char>> {
    match e {
        ParseErrorView::Expected(x) => Some(expectation_text(x)),
        ParseErrorView::MissingVariable(name) => Some(
            "Expected variable name inside "@ + name + "[...]"@,
        ),
        ParseErrorView::InvalidRange => Some(
            "Expected a valid range (e.g., 1..10,2) inside sum/prod bounds"@,
        ),
        ParseErrorView::UnexpectedOperator(op) => Some(
            "Unexpected prefix operator: "@ + operator_name(op),
        ),
        ParseErrorView::UnexpectedToken(t) => with_token("Unexpected token: "@, t),
        ParseErrorView::MatrixSeparator(t) => with_token(
            "Expected ',', ';' or ']' after matrix element, got "@,
            t,
        ),
        ParseErrorView::ExpectedParameter => Some(
            "Expected parameter identifier in function def"@,
        ),
        ParseErrorView::TrailingToken(t) => with_token("Unexpected token after expression: "@, t),
    }
}

/// The message of a syntax error; none where it shows a real or complex
/// literal.
pub open spec fn syntax_error_text(e: SyntaxErrorView) -> Option<Seq<char>> {
    match e {
        SyntaxErrorView::Tokenize(t) => Some(tokenize_error_text(t)),
        SyntaxErrorView::Parse(p) => parse_error_text(p),
    }
}

/// Calls `<str as Debug>::fmt` through `format!`; its result is named
/// `str_debug_text`.
#[verifier::external_body]
fn debug_quoted(s: &str) -> (r: String)
    ensures
        r@ == str_debug_text(s@),
{
    format!("{:?}", s)
}

/// The decimal digit of `d`.
fn digit(d: u64) -> (c: char)
    requires
        d < 10,
    ensures
        c == digit_char(d as int),
{
    match d {
        0 => '0',
        1 => '1',
        2 => '2',
        3 => '3',
        4 => '4',
        5 => '5',
        6 => '6',
        7 => '7',
        8 => '8',
        _ => '9',
    }
}

/// Appends the decimal digits of `n`.
fn push_decimal(s: &mut String, n: u64)
    ensures
        final(s)@ == old(s)@ + decimal_digits(n as nat),
    decreases n,
{
    if n >= 10 {
        push_decimal(s, n / 10);
    }
    let c = digit(n % 10);
    push_char(s, c);
    proof {
        if n >= 10 {
            assert(decimal_digits(n as nat) == decimal_digits((n / 10) as nat).push(c));
        } else {
            assert(decimal_digits(n as nat) == seq![c]);
        }
    }
}

/// An integer in decimal.
pub fn integer_string(n: i64) -> (s: String)
    ensures
        s@ == integer_text(n as int),
{
    let mut s = String::new();
    if n < 0 {
        push_char(&mut s, '-');
        let m: u64 = ((-(n + 1)) as u64) + 1;
        assert(m == -(n as int));
        push_decimal(&mut s, m);
    } else {
        push_decimal(&mut s, n as u64);
    }
    s
}

impl Operators {
    /// The name of the operator, as its variant is written.
    pub fn name(&self) -> (r: &'static str)
        ensures
            r@ == operator_name(*self),
    {
        match self {
            Operators::Plus => "Plus",
            Operators::Minus => "Minus",
            Operators::Star => "Star",
            Operators::Slash => "Slash",
            Operators::Caret => "Caret",
            Operators::Comma => "Comma",
            Operators::Equal => "Equal",
            Operators::Colon => "Colon",
            Operators::Semicolon => "Semicolon",
            Operators::Ampersand => "Ampersand",
            Operators::Pipe => "Pipe",
            Operators::Exclamation => "Exclamation",
            Operators::RangeDots => "RangeDots",
            Operators::Prime => "Prime",
            Operators::LParen => "LParen",
            Operators::RParen => "RParen",
            Operators::LBracket => "LBracket",
            Operators::RBracket => "RBracket",
            Operators::LessThan => "LessThan",
            Operators::GreaterThan => "GreaterThan",
            Operators::LessEqual => "LessEqual",
            Operators::GreaterEqual => "GreaterEqual",
            Operators::DoubleEqual => "DoubleEqual",
            Operators::NotEqual => "NotEqual",
        }
    }
}

impl Token {
    /// How the token reads in a message; none for a real or complex literal.
    pub fn text(&self) -> (r: Option<String>)
        ensures
            r matches Some(s) ==> token_text(self@) == Some(s@),
            r is None ==> token_text(self@) is None,
    {
        match self {
            Token::Integer(n) => {
                let mut s = String::from_str("Integer(");
                let d = integer_string(*n);
                s.append(d.as_str());
                s.append(")");
                Some(s)
            },
            Token::Number(_) => None,
            Token::Complex(_, _) => None,
            Token::Identifier(name) => {
                let mut s = String::from_str("Identifier(");
                let d = debug_quoted(name.as_str());
                s.append(d.as_str());
                s.append(")");
                Some(s)
            },
            Token::Operator(op) => {
                let mut s = String::from_str("Operator(");
                s.append(op.name());
                s.append(")");
                Some(s)
            },
            Token::EOF => Some(String::from_str("EOF")),
        }
    }
}

impl TokenizeError {
    /// The message of the error.
    pub fn message(&self) -> (r: String)
        ensures
            r@ == tokenize_error_text(*self),
    {
        match self {
            TokenizeError::InvalidComplex => String::from_str("Invalid complex number"),
            TokenizeError::InvalidNumber => String::from_str("Invalid number"),
            TokenizeError::UnknownCharacter(c) => {
                let mut s = String::from_str("Unknown character: ");
                push_char(&mut s, *c);
                s
            },
            TokenizeError::MissingExponentDigits => String::from_str(
                "Scientific notation lacks exponent digits",
            ),
        }
    }
}

impl Expectation {
    /// The message of the missing token.
    pub fn message(&self) -> (r: &'static str)
        ensures
            r@ == expectation_text(*self),
    {
        match self {
            Expectation::IndexClose => "Expected ']' at the end of matrix index",
            Expectation::SumEquals => "Expected '=' after variable in sum/prod",
            Expectation::SumBoundsClose => "Expected ']' after bounds",
            Expectation::SumBodyOpen => "Expected '(' before body",
            Expectation::SumBodyClose => "Expected ')' after body",
            Expectation::IntegralBoundsComma => "Expected ',' between integral bounds",
            Expectation::IntegralBoundsClose => "Expected ']' after integral bounds",
            Expectation::IntegralBodyOpen => "Expected '(' before integral body",
            Expectation::IntegralBodyClose => "Expected ')' after integral body",
            Expectation::IntegralVariableClose => "Expected ']' after integral variable",
            Expectation::LimitArrow => "Expected '->' in limit definition",
            Expectation::LimitClose => "Expected ']' after limit definition",
            Expectation::LimitBodyOpen => "Expected '(' before limit body",
            Expectation::LimitBodyClose => "Expected ')' after limit body",
            Expectation::DiffClose => "Expected ']' after diff specification",
            Expectation::OpenParen => "Expected '('",
            Expectation::CloseParen => "Expected ')'",
            Expectation::OpenBracket => "Expected '['",
            Expectation::DefinitionEquals => "Expected '=' in function definition",
        }
    }
}

/// `prefix` followed by the text of token `t`, where the token has one.
fn prefixed_token(prefix: &str, t: &Token) -> (r: Option<String>)
    ensures
        r matches Some(s) ==> with_token(prefix@, t@) == Some(s@),
        r is None ==> with_token(prefix@, t@) is None,
{
    match t.text() {
        Some(x) => {
            let mut s = String::from_str(prefix);
            s.append(x.as_str());
            Some(s)
        },
        None => None,
    }
}

impl ParseError {
    /// The message of the error; none where it shows a real or complex
    /// literal.
    pub fn message(&self) -> (r: Option<String>)
        ensures
            r matches Some(s) ==> parse_error_text(self@) == Some(s@),
            r is None ==> parse_error_text(self@) is None,
    {
        match self {
            ParseError::Expected(x) => Some(String::from_str(x.message())),
            ParseError::MissingVariable(name) => {
                let mut s = String::from_str("Expected variable name inside ");
                s.append(name.as_str());
                s.append("[...]");
                Some(s)
            },
            ParseError::InvalidRange => Some(
                String::from_str("Expected a valid range (e.g., 1..10,2) inside sum/prod bounds"),
            ),
            ParseError::UnexpectedOperator(op) => {
                let mut s = String::from_str("Unexpected prefix operator: ");
                s.append(op.name());
                Some(s)
            },
            ParseError::UnexpectedToken(t) => prefixed_token("Unexpected token: ", t),
            ParseError::MatrixSeparator(t) => prefixed_token(
                "Expected ',', ';' or ']' after matrix element, got ",
                t,
            ),
            ParseError::ExpectedParameter => Some(
                String::from_str("Expected parameter identifier in function def"),
            ),
            ParseError::TrailingToken(t) => prefixed_token("Unexpected token after expression: ", t),
        }
    }
}

impl SyntaxError {
    /// The message of the error; none where it shows a real or complex
    /// literal.
    pub fn message(&self) -> (r: Option<String>)
        ensures
            r matches Some(s) ==> syntax_error_text(self@) == Some(s@),
            r is None ==> syntax_error_text(self@) is None,
    {
        match self {
            SyntaxError::Tokenize(e) => Some(e.message()),
            SyntaxError::Parse(e) => e.message(),
        }
    }
}

} // verus!
