//! The parser: a precedence-climbing parser from tokens to a syntax tree.
//!
//! Its specification is a family of functions over the token views and a
//! position, each giving an outcome and the position where parsing stopped.
//! Where a sub-parse would not have moved forward, the specification leaves
//! the outcome unspecified (`arbitrary()`); the contracts of the parser show
//! that positions always move forward there, so those branches never occur.
use vstd::prelude::*;

use crate::ast;
use crate::ast::{Node, NodeView};
use crate::chars;
use crate::chars::{chars_of, is_alphabetic, is_uppercase, str_eq};
use crate::tokenized;
use crate::tokenized::{Operators, Token, TokenView};

verus! {

/// Which token a construct expected and did not find.
#[derive(Clone, Copy, Debug, PartialEq, Eq, Structural)]
pub enum Expectation {
    /// `]` closing the indices of `a[..]`.
    IndexClose,
    /// `=` after the variable of `sum[..]` or `prod[..]`.
    SumEquals,
    /// `]` after the bounds of `sum[..]` or `prod[..]`.
    SumBoundsClose,
    /// `(` before the body of `sum[..]` or `prod[..]`.
    SumBodyOpen,
    /// `)` after the body of `sum[..]` or `prod[..]`.
    SumBodyClose,
    /// `,` between the bounds of `int[..]`.
    IntegralBoundsComma,
    /// `]` after the bounds of `int[..]`.
    IntegralBoundsClose,
    /// `(` before the body of `int[..]`.
    IntegralBodyOpen,
    /// `)` after the body of `int[..]`.
    IntegralBodyClose,
    /// `]` after the variable of an indefinite `int[..]`.
    IntegralVariableClose,
    /// `->` in `lim[..]`.
    LimitArrow,
    /// `]` closing `lim[..]`.
    LimitClose,
    /// `(` before the body of `lim[..]`.
    LimitBodyOpen,
    /// `)` after the body of `lim[..]`.
    LimitBodyClose,
    /// `]` closing `diff[..]`.
    DiffClose,
    /// `(`.
    OpenParen,
    /// `)`.
    CloseParen,
    /// `[`.
    OpenBracket,
    /// `=` in a function definition.
    DefinitionEquals,
}

/// Why a token sequence could not be parsed.
#[derive(Debug, PartialEq)]
pub enum ParseError {
    /// A construct expected a token that was not there.
    Expected(Expectation),
    /// No variable name after `sum[`, `prod[`, `int[`, `diff[` or `lim[`;
    /// holds the name of the construct.
    MissingVariable(String),
    /// The bounds of `sum[..]` or `prod[..]` are not a range.
    InvalidRange,
    /// An operator that cannot start an expression.
    UnexpectedOperator(Operators),
    /// A token that cannot start an expression.
    UnexpectedToken(Token),
    /// A matrix element followed by something other than `,`, `;` or `]`.
    MatrixSeparator(Token),
    /// A function definition whose parameter is not an identifier.
    ExpectedParameter,
    /// A complete expression followed by a token other than `)`, `]` or `EOF`.
    TrailingToken(Token),
}

/// The mathematical value of a parse error.
pub enum ParseErrorView {
    Expected(Expectation),
    MissingVariable(Seq<char>),
    InvalidRange,
    UnexpectedOperator(Operators),
    UnexpectedToken(TokenView),
    MatrixSeparator(TokenView),
    ExpectedParameter,
    TrailingToken(TokenView),
}

impl View for ParseError {
    type V = ParseErrorView;

    open spec fn view(&self) -> ParseErrorView {
        match self {
            ParseError::Expected(e) => ParseErrorView::Expected(*e),
            ParseError::MissingVariable(s) => ParseErrorView::MissingVariable(s@),
            ParseError::InvalidRange => ParseErrorView::InvalidRange,
            ParseError::UnexpectedOperator(op) => ParseErrorView::UnexpectedOperator(*op),
            ParseError::UnexpectedToken(t) => ParseErrorView::UnexpectedToken(t@),
            ParseError::MatrixSeparator(t) => ParseErrorView::MatrixSeparator(t@),
            ParseError::ExpectedParameter => ParseErrorView::ExpectedParameter,
            ParseError::TrailingToken(t) => ParseErrorView::TrailingToken(t@),
        }
    }
}

/// An outcome of parsing, and the position where parsing stopped.
pub type Parsed<T> = (Result<T, ParseErrorView>, int);

/// The token at `p`; past the end, `EOF`.
pub open spec fn tok(t: Seq<TokenView>, p: int) -> TokenView {
    if 0 <= p < t.len() {
        t[p]
    } else {
        TokenView::EOF
    }
}

/// The token at `p` is the operator `op`.
pub open spec fn op_at(t: Seq<TokenView>, p: int, op: Operators) -> bool {
    tok(t, p) == TokenView::Operator(op)
}

/// The names that open a calculus form `name[..](..)`.
pub open spec fn is_calculus_name(name: Seq<char>) -> bool {
    name == "sum"@ || name == "prod"@ || name == "int"@ || name == "diff"@ || name == "lim"@
}

/// Whether a letter is alphabetic, and whether it is upper case.
#[derive(Clone, Copy, Debug, PartialEq, Eq, Structural)]
pub struct LetterCase {
    pub alphabetic: bool,
    pub uppercase: bool,
}

/// The case that std gives the character `c`.
pub open spec fn case_of(c: char) -> LetterCase {
    LetterCase { alphabetic: chars::char_is_alphabetic(c), uppercase: chars::char_is_uppercase(c) }
}

/// The cases of the characters of `name`, position by position.
pub open spec fn cases_of(name: Seq<char>) -> Seq<LetterCase> {
    Seq::new(name.len(), |i: int| case_of(name[i]))
}

/// No letter is lower case: each is alphabetic only if upper case.
pub open spec fn no_lower_case(cases: Seq<LetterCase>) -> bool {
    forall|i: int| 0 <= i < cases.len() ==> !(#[trigger] cases[i]).alphabetic || cases[i].uppercase
}

/// A name is a constant when none of its alphabetic characters is lower
/// case.
pub open spec fn is_constant_name(name: Seq<char>) -> bool {
    no_lower_case(cases_of(name))
}

/// Two adjacent tokens multiply without an operator: the previous token
/// ends an operand and the current one starts one.
pub open spec fn implicit_multiplication(t: Seq<TokenView>, p: int) -> bool {
    let prev = if p > 0 {
        tok(t, p - 1)
    } else {
        tok(t, 0)
    };
    let cur = tok(t, p);
    (prev is Integer || prev is Number || prev is Complex || prev is Identifier
        || prev == TokenView::Operator(Operators::RParen) || prev == TokenView::Operator(
        Operators::RBracket,
    )) && (cur is Number || cur is Complex || cur is Identifier || cur == TokenView::Operator(
        Operators::LParen,
    ))
}

/// The first position from `q` on that holds `)`, or the end.
pub open spec fn first_rparen(t: Seq<TokenView>, q: int) -> int
    decreases t.len() - q,
{
    if 0 <= q < t.len() && !op_at(t, q, Operators::RParen) {
        first_rparen(t, q + 1)
    } else {
        q
    }
}

/// At `p` stands `(`, and the token after the first `)` that follows is `=`:
/// what comes is a function definition.
pub open spec fn definition_ahead(t: Seq<TokenView>, p: int) -> bool {
    0 <= p < t.len() && op_at(t, p, Operators::LParen) && {
        let r = first_rparen(t, p + 1) + 1;
        r < t.len() && op_at(t, r, Operators::Equal)
    }
}

/// The end of the run of primes that starts at `p`.
pub open spec fn primes_end(t: Seq<TokenView>, p: int) -> int
    decreases t.len() - p,
{
    if 0 <= p < t.len() && op_at(t, p, Operators::Prime) {
        primes_end(t, p + 1)
    } else {
        p
    }
}

/// The variable that primes differentiate `left` by: the argument of a call
/// with one variable argument, else `x`.
pub open spec fn derivative_variable(left: NodeView) -> Seq<char> {
    match left {
        NodeView::FunctionCall { args, .. } => if args.len() == 1 && args[0] is Variable {
            args[0]->Variable_0
        } else {
            seq!['x']
        },
        _ => seq!['x'],
    }
}

/// The default order of `diff[..]`: the real literal `1.0`.
pub open spec fn unit_text() -> Seq<char> {
    seq!['1', '.', '0']
}

/// The token at `p` may follow a complete expression: `EOF`, `)` or `]`.
pub open spec fn closes(t: Seq<TokenView>, p: int) -> bool {
    tok(t, p) is EOF || op_at(t, p, Operators::RParen) || op_at(t, p, Operators::RBracket)
}

/// A whole parse from `p`: an expression, which must be followed by `EOF`,
/// `)` or `]`.
pub open spec fn parse_spec(t: Seq<TokenView>, p: int) -> Parsed<NodeView> {
    let (r, q) = expr_spec(t, p, 0);
    match r {
        Err(e) => (Err(e), q),
        Ok(n) => if !closes(t, q) {
            (Err(ParseErrorView::TrailingToken(tok(t, q))), q)
        } else {
            (Ok(n), q)
        },
    }
}

/// An expression from `p` whose operators bind tighter than `prec`.
pub open spec fn expr_spec(t: Seq<TokenView>, p: int, prec: u8) -> Parsed<NodeView>
    decreases t.len() - p, 2int,
{
    if 0 < prec <= 4 && op_at(t, p, Operators::Colon) {
        (Ok(NodeView::EmptySlice), p)
    } else {
        let (r, q) = prefix_spec(t, p);
        match r {
            Err(e) => (Err(e), q),
            Ok(left) => if p < q <= t.len() {
                expr_loop_spec(t, q, prec, left)
            } else {
                arbitrary()
            },
        }
    }
}

/// The operators that follow the operand `left`, from `p`, while they bind
/// tighter than `prec`.
pub open spec fn expr_loop_spec(t: Seq<TokenView>, p: int, prec: u8, left: NodeView) -> Parsed<
    NodeView,
>
    decreases t.len() - p, 3int,
{
    if op_at(t, p, Operators::Prime) {
        let q = primes_end(t, p);
        let d = NodeView::DerivativeExpr {
            var: derivative_variable(left),
            order: Box::new(NodeView::Integer((q - p) as i64)),
            body: Box::new(left),
        };
        if p < q <= t.len() {
            expr_loop_spec(t, q, prec, d)
        } else {
            arbitrary()
        }
    } else if implicit_multiplication(t, p) {
        if prec >= 7 {
            (Ok(left), p)
        } else {
            let (r, q) = expr_spec(t, p, 7);
            match r {
                Err(e) => (Err(e), q),
                Ok(right) => if p < q <= t.len() {
                    expr_loop_spec(
                        t,
                        q,
                        prec,
                        NodeView::BinOp {
                            op: Operators::Star,
                            left: Box::new(left),
                            right: Box::new(right),
                        },
                    )
                } else {
                    arbitrary()
                },
            }
        }
    } else {
        match tok(t, p) {
            TokenView::Operator(op) => match ast::infix_precedence(op) {
                None => (Ok(left), p),
                Some(opp) => if prec >= opp {
                    (Ok(left), p)
                } else if op == Operators::RangeDots {
                    range_spec(t, p + 1, prec, left)
                } else if op == Operators::LBracket {
                    let (r, q) = if op_at(t, p + 1, Operators::RBracket) {
                        (Ok(Seq::empty()), p + 1)
                    } else {
                        index_list_spec(t, p + 1, Seq::empty())
                    };
                    match r {
                        Err(e) => (Err(e), q),
                        Ok(indices) => if !op_at(t, q, Operators::RBracket) {
                            (Err(ParseErrorView::Expected(Expectation::IndexClose)), q)
                        } else if p < q + 1 <= t.len() {
                            expr_loop_spec(
                                t,
                                q + 1,
                                prec,
                                NodeView::Index { expr: Box::new(left), indices },
                            )
                        } else {
                            arbitrary()
                        },
                    }
                } else {
                    let rp = if ast::right_associative(op) {
                        (opp - 1) as u8
                    } else {
                        opp
                    };
                    let (r, q) = expr_spec(t, p + 1, rp);
                    match r {
                        Err(e) => (Err(e), q),
                        Ok(right) => if p < q <= t.len() {
                            expr_loop_spec(
                                t,
                                q,
                                prec,
                                NodeView::BinOp { op, left: Box::new(left), right: Box::new(right) },
                            )
                        } else {
                            arbitrary()
                        },
                    }
                },
            },
            _ => (Ok(left), p),
        }
    }
}

/// The rest of a range `left..end` or `left..end,step`, from after `..`.
pub open spec fn range_spec(t: Seq<TokenView>, p: int, prec: u8, left: NodeView) -> Parsed<
    NodeView,
>
    decreases t.len() - p, 4int,
{
    let (r, q) = expr_spec(t, p, 4);
    match r {
        Err(e) => (Err(e), q),
        Ok(end) => if !(p <= q < t.len()) {
            arbitrary()
        } else if op_at(t, q, Operators::Comma) {
            let (rs, q2) = expr_spec(t, q + 1, 4);
            match rs {
                Err(e) => (Err(e), q2),
                Ok(step) => if p <= q2 <= t.len() {
                    expr_loop_spec(
                        t,
                        q2,
                        prec,
                        NodeView::Range {
                            start: Box::new(left),
                            end: Box::new(end),
                            step: Some(Box::new(step)),
                        },
                    )
                } else {
                    arbitrary()
                },
            }
        } else {
            expr_loop_spec(
                t,
                q,
                prec,
                NodeView::Range { start: Box::new(left), end: Box::new(end), step: None },
            )
        },
    }
}

/// The indices of `a[..]` from `p`, after those in `acc`: each an
/// expression or `:`, separated by commas.
pub open spec fn index_list_spec(t: Seq<TokenView>, p: int, acc: Seq<NodeView>) -> Parsed<
    Seq<NodeView>,
>
    decreases t.len() - p, 3int,
{
    let (r, q) = if op_at(t, p, Operators::Colon) {
        (Ok(NodeView::EmptySlice), p + 1)
    } else {
        expr_spec(t, p, 0)
    };
    match r {
        Err(e) => (Err(e), q),
        Ok(n) => if op_at(t, q, Operators::Comma) {
            if p <= q < t.len() {
                index_list_spec(t, q + 1, acc.push(n))
            } else {
                arbitrary()
            }
        } else {
            (Ok(acc.push(n)), q)
        },
    }
}

/// An expression that starts at `p`: a literal, a name, a call, a
/// definition, a calculus form, a prefix operator, a parenthesis, a matrix
/// or `:`.
pub open spec fn prefix_spec(t: Seq<TokenView>, p: int) -> Parsed<NodeView>
    decreases t.len() - p, 1int,
{
    match tok(t, p) {
        TokenView::Integer(n) => (Ok(NodeView::Integer(n)), p + 1),
        TokenView::Number(s) => (Ok(NodeView::Number(s)), p + 1),
        TokenView::Complex(re, im) => (Ok(NodeView::Complex(re, im)), p + 1),
        TokenView::Identifier(name) => identifier_spec(t, p + 1, name),
        TokenView::Operator(op) => match ast::prefix_precedence(op) {
            Some(pr) => {
                let (r, q) = expr_spec(t, p + 1, pr);
                match r {
                    Err(e) => (Err(e), q),
                    Ok(child) => (Ok(NodeView::UnaryOp { op, child: Box::new(child) }), q),
                }
            },
            None => if op == Operators::LParen {
                let (r, q) = expr_spec(t, p + 1, 0);
                match r {
                    Err(e) => (Err(e), q),
                    Ok(e) => if op_at(t, q, Operators::RParen) {
                        (Ok(e), q + 1)
                    } else {
                        (Err(ParseErrorView::Expected(Expectation::CloseParen)), q)
                    },
                }
            } else if op == Operators::LBracket {
                matrix_spec(t, p)
            } else if op == Operators::Colon {
                (Ok(NodeView::EmptySlice), p + 1)
            } else {
                (Err(ParseErrorView::UnexpectedOperator(op)), p)
            },
        },
        TokenView::EOF => (Err(ParseErrorView::UnexpectedToken(TokenView::EOF)), p),
    }
}

/// What follows the identifier `name`, from `p`: a calculus form, a
/// definition, a call, or the name alone as a constant or a variable.
pub open spec fn identifier_spec(t: Seq<TokenView>, p: int, name: Seq<char>) -> Parsed<NodeView>
    decreases t.len() - p, 1int,
{
    if is_calculus_name(name) && op_at(t, p, Operators::LBracket) {
        calculus_spec(t, p + 1, name)
    } else if op_at(t, p, Operators::LParen) {
        if op_at(t, p + 1, Operators::Equal) || definition_ahead(t, p) {
            function_def_spec(t, p, name)
        } else {
            function_call_spec(t, p, name)
        }
    } else if is_constant_name(name) {
        (Ok(NodeView::Constant(name)), p)
    } else {
        (Ok(NodeView::Variable(name)), p)
    }
}

/// A calculus form `name[v ...](...)` from after its `[`.
pub open spec fn calculus_spec(t: Seq<TokenView>, p: int, name: Seq<char>) -> Parsed<NodeView>
    decreases t.len() - p, 0int,
{
    match tok(t, p) {
        TokenView::Identifier(v) => if name == "sum"@ || name == "prod"@ {
            sum_spec(t, p + 1, name == "sum"@, v)
        } else if name == "int"@ {
            integral_spec(t, p + 1, v)
        } else if name == "lim"@ {
            limit_spec(t, p + 1, v)
        } else {
            diff_spec(t, p + 1, v)
        },
        _ => (Err(ParseErrorView::MissingVariable(name)), p),
    }
}

/// `sum[v = range](body)` or `prod[v = range](body)` from after `v`.
pub open spec fn sum_spec(t: Seq<TokenView>, p: int, is_sum: bool, v: Seq<char>) -> Parsed<
    NodeView,
>
    decreases t.len() - p, 0int,
{
    if !op_at(t, p, Operators::Equal) {
        (Err(ParseErrorView::Expected(Expectation::SumEquals)), p)
    } else {
        let (rr, q1) = expr_spec(t, p + 1, 0);
        match rr {
            Err(e) => (Err(e), q1),
            Ok(range) => if !op_at(t, q1, Operators::RBracket) {
                (Err(ParseErrorView::Expected(Expectation::SumBoundsClose)), q1)
            } else if !op_at(t, q1 + 1, Operators::LParen) {
                (Err(ParseErrorView::Expected(Expectation::SumBodyOpen)), q1 + 1)
            } else if !(p <= q1) {
                arbitrary()
            } else {
                let (rb, q2) = expr_spec(t, q1 + 2, 0);
                match rb {
                    Err(e) => (Err(e), q2),
                    Ok(body) => if !op_at(t, q2, Operators::RParen) {
                        (Err(ParseErrorView::Expected(Expectation::SumBodyClose)), q2)
                    } else {
                        match range {
                            NodeView::Range { start, end, .. } => if is_sum {
                                (Ok(NodeView::Summation { var: v, start, end, body: Box::new(body) }), q2 + 1)
                            } else {
                                (Ok(NodeView::Product { var: v, start, end, body: Box::new(body) }), q2 + 1)
                            },
                            _ => (Err(ParseErrorView::InvalidRange), q2 + 1),
                        }
                    },
                }
            },
        }
    }
}

/// `int[v](body)` or `int[v, a, b](body)` from after `v`.
pub open spec fn integral_spec(t: Seq<TokenView>, p: int, v: Seq<char>) -> Parsed<NodeView>
    decreases t.len() - p, 0int,
{
    if op_at(t, p, Operators::Comma) {
        let (rs, q1) = expr_spec(t, p + 1, 0);
        match rs {
            Err(e) => (Err(e), q1),
            Ok(start) => if !op_at(t, q1, Operators::Comma) {
                (Err(ParseErrorView::Expected(Expectation::IntegralBoundsComma)), q1)
            } else if !(p <= q1) {
                arbitrary()
            } else {
                let (re, q2) = expr_spec(t, q1 + 1, 0);
                match re {
                    Err(e) => (Err(e), q2),
                    Ok(end) => if !op_at(t, q2, Operators::RBracket) {
                        (Err(ParseErrorView::Expected(Expectation::IntegralBoundsClose)), q2)
                    } else if !op_at(t, q2 + 1, Operators::LParen) {
                        (Err(ParseErrorView::Expected(Expectation::IntegralBodyOpen)), q2 + 1)
                    } else if !(p <= q2) {
                        arbitrary()
                    } else {
                        let (rb, q3) = expr_spec(t, q2 + 2, 0);
                        match rb {
                            Err(e) => (Err(e), q3),
                            Ok(body) => if !op_at(t, q3, Operators::RParen) {
                                (Err(ParseErrorView::Expected(Expectation::IntegralBodyClose)), q3)
                            } else {
                                (
                                    Ok(
                                        NodeView::DefIntegral {
                                            var: v,
                                            start: Box::new(start),
                                            end: Box::new(end),
                                            body: Box::new(body),
                                        },
                                    ),
                                    q3 + 1,
                                )
                            },
                        }
                    },
                }
            },
        }
    } else if !op_at(t, p, Operators::RBracket) {
        (Err(ParseErrorView::Expected(Expectation::IntegralVariableClose)), p)
    } else if !op_at(t, p + 1, Operators::LParen) {
        (Err(ParseErrorView::Expected(Expectation::IntegralBodyOpen)), p + 1)
    } else {
        let (rb, q) = expr_spec(t, p + 2, 0);
        match rb {
            Err(e) => (Err(e), q),
            Ok(body) => if !op_at(t, q, Operators::RParen) {
                (Err(ParseErrorView::Expected(Expectation::IntegralBodyClose)), q)
            } else {
                (Ok(NodeView::IndefIntegral { var: v, body: Box::new(body) }), q + 1)
            },
        }
    }
}

/// `lim[v -> target](body)` from after `v`.
pub open spec fn limit_spec(t: Seq<TokenView>, p: int, v: Seq<char>) -> Parsed<NodeView>
    decreases t.len() - p, 0int,
{
    if !op_at(t, p, Operators::Minus) {
        (Err(ParseErrorView::Expected(Expectation::LimitArrow)), p)
    } else if !op_at(t, p + 1, Operators::GreaterThan) {
        (Err(ParseErrorView::Expected(Expectation::LimitArrow)), p + 1)
    } else {
        let (rt, q1) = expr_spec(t, p + 2, 0);
        match rt {
            Err(e) => (Err(e), q1),
            Ok(target) => if !op_at(t, q1, Operators::RBracket) {
                (Err(ParseErrorView::Expected(Expectation::LimitClose)), q1)
            } else if !op_at(t, q1 + 1, Operators::LParen) {
                (Err(ParseErrorView::Expected(Expectation::LimitBodyOpen)), q1 + 1)
            } else if !(p <= q1) {
                arbitrary()
            } else {
                let (rb, q2) = expr_spec(t, q1 + 2, 0);
                match rb {
                    Err(e) => (Err(e), q2),
                    Ok(body) => if !op_at(t, q2, Operators::RParen) {
                        (Err(ParseErrorView::Expected(Expectation::LimitBodyClose)), q2)
                    } else {
                        (
                            Ok(
                                NodeView::Limit {
                                    var: v,
                                    target: Box::new(target),
                                    body: Box::new(body),
                                },
                            ),
                            q2 + 1,
                        )
                    },
                }
            },
        }
    }
}

/// `diff[v](body)` or `diff[v, order](body)` from after `v`.
pub open spec fn diff_spec(t: Seq<TokenView>, p: int, v: Seq<char>) -> Parsed<NodeView>
    decreases t.len() - p, 0int,
{
    let (ro, q1) = if op_at(t, p, Operators::Comma) {
        expr_spec(t, p + 1, 0)
    } else {
        (Ok(NodeView::Number(unit_text())), p)
    };
    match ro {
        Err(e) => (Err(e), q1),
        Ok(order) => if !op_at(t, q1, Operators::RBracket) {
            (Err(ParseErrorView::Expected(Expectation::DiffClose)), q1)
        } else if !op_at(t, q1 + 1, Operators::LParen) {
            (Err(ParseErrorView::Expected(Expectation::OpenParen)), q1 + 1)
        } else if !(p <= q1) {
            arbitrary()
        } else {
            let (rb, q2) = expr_spec(t, q1 + 2, 0);
            match rb {
                Err(e) => (Err(e), q2),
                Ok(body) => if !op_at(t, q2, Operators::RParen) {
                    (Err(ParseErrorView::Expected(Expectation::CloseParen)), q2)
                } else {
                    (
                        Ok(
                            NodeView::DerivativeExpr {
                                var: v,
                                order: Box::new(order),
                                body: Box::new(body),
                            },
                        ),
                        q2 + 1,
                    )
                },
            }
        },
    }
}

/// The parameters of a definition from `p`, after those in `acc`:
/// identifiers separated by commas.
pub open spec fn param_list_spec(t: Seq<TokenView>, p: int, acc: Seq<Seq<char>>) -> Parsed<
    Seq<Seq<char>>,
>
    decreases t.len() - p,
{
    match tok(t, p) {
        TokenView::Identifier(s) => if op_at(t, p + 1, Operators::Comma) {
            param_list_spec(t, p + 2, acc.push(s))
        } else {
            (Ok(acc.push(s)), p + 1)
        },
        _ => (Err(ParseErrorView::ExpectedParameter), p),
    }
}

/// A definition `name(params) = body` from its `(`.
pub open spec fn function_def_spec(t: Seq<TokenView>, p: int, name: Seq<char>) -> Parsed<NodeView>
    decreases t.len() - p, 0int,
{
    if !op_at(t, p, Operators::LParen) {
        (Err(ParseErrorView::Expected(Expectation::OpenParen)), p)
    } else {
        let (rp, q1) = if op_at(t, p + 1, Operators::RParen) {
            (Ok(Seq::empty()), p + 1)
        } else {
            param_list_spec(t, p + 1, Seq::empty())
        };
        match rp {
            Err(e) => (Err(e), q1),
            Ok(params) => if !op_at(t, q1, Operators::RParen) {
                (Err(ParseErrorView::Expected(Expectation::CloseParen)), q1)
            } else if !op_at(t, q1 + 1, Operators::Equal) {
                (Err(ParseErrorView::Expected(Expectation::DefinitionEquals)), q1 + 1)
            } else if !(p <= q1) {
                arbitrary()
            } else {
                let (rb, q2) = expr_spec(t, q1 + 2, 0);
                match rb {
                    Err(e) => (Err(e), q2),
                    Ok(body) => (Ok(NodeView::FunctionDef { name, params, body: Box::new(body) }), q2),
                }
            },
        }
    }
}

/// The arguments of a call from `p`, after those in `acc`: expressions
/// separated by commas.
pub open spec fn arg_list_spec(t: Seq<TokenView>, p: int, acc: Seq<NodeView>) -> Parsed<
    Seq<NodeView>,
>
    decreases t.len() - p, 3int,
{
    let (r, q) = expr_spec(t, p, 0);
    match r {
        Err(e) => (Err(e), q),
        Ok(n) => if op_at(t, q, Operators::Comma) {
            if p <= q < t.len() {
                arg_list_spec(t, q + 1, acc.push(n))
            } else {
                arbitrary()
            }
        } else {
            (Ok(acc.push(n)), q)
        },
    }
}

/// A call `name(args)` from its `(`.
pub open spec fn function_call_spec(t: Seq<TokenView>, p: int, name: Seq<char>) -> Parsed<NodeView>
    decreases t.len() - p, 0int,
{
    if !op_at(t, p, Operators::LParen) {
        (Err(ParseErrorView::Expected(Expectation::OpenParen)), p)
    } else {
        let (ra, q) = if op_at(t, p + 1, Operators::RParen) {
            (Ok(Seq::empty()), p + 1)
        } else {
            arg_list_spec(t, p + 1, Seq::empty())
        };
        match ra {
            Err(e) => (Err(e), q),
            Ok(args) => if !op_at(t, q, Operators::RParen) {
                (Err(ParseErrorView::Expected(Expectation::CloseParen)), q)
            } else {
                (Ok(NodeView::FunctionCall { name, args }), q + 1)
            },
        }
    }
}

/// A matrix `[a, b; c, d]` from its `[`.
pub open spec fn matrix_spec(t: Seq<TokenView>, p: int) -> Parsed<NodeView>
    decreases t.len() - p, 0int,
{
    if !op_at(t, p, Operators::LBracket) {
        (Err(ParseErrorView::Expected(Expectation::OpenBracket)), p)
    } else if op_at(t, p + 1, Operators::RBracket) {
        (Ok(NodeView::Matrix { rows: Seq::empty() }), p + 2)
    } else {
        matrix_rows_spec(t, p + 1, Seq::empty())
    }
}

/// The rows of a matrix from `p`, after those in `rows`, up to its `]`.
pub open spec fn matrix_rows_spec(t: Seq<TokenView>, p: int, rows: Seq<Seq<NodeView>>) -> Parsed<
    NodeView,
>
    decreases t.len() - p, 5int,
{
    if op_at(t, p, Operators::RBracket) {
        (Ok(NodeView::Matrix { rows }), p + 1)
    } else {
        let (r, q) = matrix_row_spec(t, p, Seq::empty());
        match r {
            Err(e) => (Err(e), q),
            Ok(row) => if p < q <= t.len() {
                matrix_rows_spec(t, q, rows.push(row))
            } else {
                arbitrary()
            },
        }
    }
}

/// The elements of one matrix row from `p`, after those in `row`: it ends
/// at `;` (taken) or at `]` (left).
pub open spec fn matrix_row_spec(t: Seq<TokenView>, p: int, row: Seq<NodeView>) -> Parsed<
    Seq<NodeView>,
>
    decreases t.len() - p, 4int,
{
    if op_at(t, p, Operators::RBracket) {
        (Ok(row), p)
    } else if op_at(t, p, Operators::Semicolon) {
        (Ok(row), p + 1)
    } else {
        let (r, q) = expr_spec(t, p, 0);
        match r {
            Err(e) => (Err(e), q),
            Ok(e) => if op_at(t, q, Operators::Comma) {
                if p <= q < t.len() {
                    matrix_row_spec(t, q + 1, row.push(e))
                } else {
                    arbitrary()
                }
            } else if op_at(t, q, Operators::Semicolon) {
                (Ok(row.push(e)), q + 1)
            } else if op_at(t, q, Operators::RBracket) {
                (Ok(row.push(e)), q)
            } else {
                (Err(ParseErrorView::MatrixSeparator(tok(t, q))), q)
            },
        }
    }
}


/// Tokens a parser can run over: one of them is `EOF`.
pub open spec fn tokens_well_formed(t: Seq<TokenView>) -> bool {
    exists|k: int| 0 <= k < t.len() && #[trigger] t[k] is EOF
}

/// The first position from `i` on that holds `EOF`, or the end.
pub open spec fn eof_from(t: Seq<TokenView>, i: int) -> int
    decreases t.len() - i,
{
    if 0 <= i < t.len() && !(t[i] is EOF) {
        eof_from(t, i + 1)
    } else {
        i
    }
}

/// The position of the first `EOF` (the end, if there is none). Parsing
/// never moves past it.
pub open spec fn first_eof(t: Seq<TokenView>) -> int {
    eof_from(t, 0)
}

/// The position after a step forward from `p`: the next one, except on
/// `EOF`, where parsing stays.
pub open spec fn advance_pos(t: Seq<TokenView>, p: int) -> int {
    if tok(t, p) is EOF {
        p
    } else {
        p + 1
    }
}

/// `eof_from` stops at the first `EOF` from `i` on, or at the end.
pub proof fn lemma_eof_from(t: Seq<TokenView>, i: int)
    requires
        0 <= i <= t.len(),
    ensures
        i <= eof_from(t, i) <= t.len(),
        forall|k: int| i <= k < eof_from(t, i) ==> !(#[trigger] t[k] is EOF),
        eof_from(t, i) < t.len() ==> t[eof_from(t, i)] is EOF,
    decreases t.len() - i,
{
    if i < t.len() && !(t[i] is EOF) {
        lemma_eof_from(t, i + 1);
    }
}

/// In well-formed tokens the first `EOF` exists: a position before the end
/// that holds `EOF`, with none before it.
pub proof fn lemma_first_eof(t: Seq<TokenView>)
    requires
        tokens_well_formed(t),
    ensures
        0 <= first_eof(t) < t.len(),
        t[first_eof(t)] is EOF,
        forall|k: int| 0 <= k < first_eof(t) ==> !(#[trigger] t[k] is EOF),
{
    lemma_eof_from(t, 0);
    let k = choose|k: int| 0 <= k < t.len() && #[trigger] t[k] is EOF;
    if first_eof(t) == t.len() {
        assert(!(t[k] is EOF));
    }
}

/// Calls `Vec::len`. std never lets a vector of a type that is not
/// zero-sized hold more than `isize::MAX` bytes, so a vector of tokens holds
/// at most `isize::MAX` of them.
#[verifier::external_body]
fn token_count(v: &Vec<Token>) -> (n: usize)
    ensures
        n == v@.len(),
        n <= isize::MAX,
{
    v.len()
}

/// A parse outcome with its node and error taken by their views.
pub open spec fn node_result_view(r: Result<Node, ParseError>) -> Result<NodeView, ParseErrorView> {
    match r {
        Ok(n) => Ok(n@),
        Err(e) => Err(e@),
    }
}

/// A list parse outcome with its nodes and error taken by their views.
pub open spec fn nodes_result_view(r: Result<Vec<Node>, ParseError>) -> Result<
    Seq<NodeView>,
    ParseErrorView,
> {
    match r {
        Ok(v) => Ok(ast::nodes_view(v@)),
        Err(e) => Err(e@),
    }
}

/// A parameter list outcome with its names and error taken by their views.
pub open spec fn strings_result_view(r: Result<Vec<String>, ParseError>) -> Result<
    Seq<Seq<char>>,
    ParseErrorView,
> {
    match r {
        Ok(v) => Ok(ast::strings_view(v@)),
        Err(e) => Err(e@),
    }
}

pub proof fn lemma_nodes_view_push(s: Seq<Node>, n: Node)
    ensures
        ast::nodes_view(s.push(n)) == ast::nodes_view(s).push(ast::node_view(n)),
        ast::nodes_view(Seq::<Node>::empty()) == Seq::<NodeView>::empty(),
{
    assert(ast::nodes_view(s.push(n)) =~= ast::nodes_view(s).push(ast::node_view(n)));
    assert(ast::nodes_view(Seq::<Node>::empty()) =~= Seq::<NodeView>::empty());
}

pub proof fn lemma_rows_view_push(s: Seq<Vec<Node>>, r: Vec<Node>)
    ensures
        ast::rows_view(s.push(r)) == ast::rows_view(s).push(ast::nodes_view(r@)),
        ast::rows_view(Seq::<Vec<Node>>::empty()) == Seq::<Seq<NodeView>>::empty(),
{
    assert(ast::rows_view(s.push(r)) =~= ast::rows_view(s).push(ast::nodes_view(r@)));
    assert(ast::rows_view(Seq::<Vec<Node>>::empty()) =~= Seq::<Seq<NodeView>>::empty());
}

pub proof fn lemma_strings_view_push(s: Seq<String>, x: String)
    ensures
        ast::strings_view(s.push(x)) == ast::strings_view(s).push(x@),
        ast::strings_view(Seq::<String>::empty()) == Seq::<Seq<char>>::empty(),
{
    assert(ast::strings_view(s.push(x)) =~= ast::strings_view(s).push(x@));
    assert(ast::strings_view(Seq::<String>::empty()) =~= Seq::<Seq<char>>::empty());
}

/// A copy of a token, equal to it.
fn copy_token(t: &Token) -> (r: Token)
    ensures
        r == *t,
{
    match t {
        Token::Integer(n) => Token::Integer(*n),
        Token::Number(s) => Token::Number(s.clone()),
        Token::Complex(re, im) => Token::Complex(re.clone(), im.clone()),
        Token::Identifier(s) => Token::Identifier(s.clone()),
        Token::Operator(op) => Token::Operator(*op),
        Token::EOF => Token::EOF,
    }
}

/// The case of each character of `name`, as std gives it.
pub fn letter_cases(name: &str) -> (v: Vec<LetterCase>)
    ensures
        v@ == cases_of(name@),
{
    let cs = chars_of(name);
    let mut v: Vec<LetterCase> = Vec::new();
    let mut k: usize = 0;
    while k < cs.len()
        invariant
            k <= cs.len(),
            cs@ == name@,
            v@ =~= cases_of(name@).take(k as int),
        decreases cs.len() - k,
    {
        let c = cs[k];
        let alphabetic = is_alphabetic(c);
        let uppercase = is_uppercase(c);
        v.push(LetterCase { alphabetic, uppercase });
        k = k + 1;
    }
    v
}

/// The node of a name whose letters have the cases `cases`: a constant when
/// no letter is lower case, else a variable.
pub fn name_node(name: String, cases: &Vec<LetterCase>) -> (n: Node)
    ensures
        n@ == if no_lower_case(cases@) {
            NodeView::Constant(name@)
        } else {
            NodeView::Variable(name@)
        },
{
    let mut k: usize = 0;
    while k < cases.len()
        invariant
            k <= cases.len(),
            forall|i: int| 0 <= i < k ==> !(#[trigger] cases@[i]).alphabetic || cases@[i].uppercase,
        decreases cases.len() - k,
    {
        if cases[k].alphabetic && !cases[k].uppercase {
            assert(!(!cases@[k as int].alphabetic || cases@[k as int].uppercase));
            return Node::Variable(name);
        }
        k = k + 1;
    }
    Node::Constant(name)
}

fn calculus_name(name: &String) -> (r: bool)
    ensures
        r == is_calculus_name(name@),
{
    let s = name.as_str();
    str_eq(s, "sum") || str_eq(s, "prod") || str_eq(s, "int") || str_eq(s, "diff") || str_eq(s, "lim")
}

/// The variable that primes differentiate `left` by.
fn derivative_var(left: &Node) -> (s: String)
    ensures
        s@ == derivative_variable(left@),
{
    proof {
        reveal_strlit("x");
    }
    match left {
        Node::FunctionCall { args, .. } => {
            let ghost sv = ast::nodes_view((**args)@);
            assert(left@ == NodeView::FunctionCall { name: left@->FunctionCall_name, args: sv });
            if args.len() == 1 {
                assert(sv[0] == ast::node_view(args@[0]));
                match &args[0] {
                    Node::Variable(n) => {
                        assert(sv[0] == NodeView::Variable(n@));
                        return n.clone();
                    },
                    _ => {
                        assert(!(sv[0] is Variable));
                    },
                }
            }
            let x = String::from_str("x");
            assert(x@ =~= seq!['x']);
            x
        },
        _ => {
            let x = String::from_str("x");
            assert(x@ =~= seq!['x']);
            x
        },
    }
}

/// A parser over a token sequence that holds an `EOF`, and the position it
/// has reached (never past the first `EOF`).
pub struct Parser {
    tokens: Vec<Token>,
    pos: usize,
}

impl Parser {
    /// The tokens, by their views.
    pub closed spec fn token_views(&self) -> Seq<TokenView> {
        tokenized::tokens_view(self.tokens@)
    }

    /// The position of the next token.
    pub closed spec fn position(&self) -> int {
        self.pos as int
    }

    /// The position of the first `EOF`.
    closed spec fn eof_index(&self) -> int {
        first_eof(self.token_views())
    }

    /// The tokens hold an `EOF`, and the position lies at or before the
    /// first of them.
    #[verifier::type_invariant]
    closed spec fn wf(&self) -> bool {
        &&& self.tokens.len() <= i64::MAX
        &&& 0 <= self.eof_index() < self.tokens.len()
        &&& self.token_views()[self.eof_index()] is EOF
        &&& self.pos <= self.eof_index()
    }

    /// A parser at the first of `tokens`.
    pub fn new(tokens: Vec<Token>) -> (p: Self)
        requires
            tokens_well_formed(tokenized::tokens_view(tokens@)),
        ensures
            p.token_views() == tokenized::tokens_view(tokens@),
            p.position() == 0,
            p.position() <= first_eof(p.token_views()) < p.token_views().len(),
    {
        let n = token_count(&tokens);
        proof {
            lemma_first_eof(tokenized::tokens_view(tokens@));
        }
        Parser { tokens, pos: 0 }
    }

    /// Parses one expression from the current position; it must be followed
    /// by `EOF`, `)` or `]`. The position moves to where parsing stopped.
    pub fn parse(&mut self) -> (res: Result<Node, ParseError>)
        ensures
            final(self).token_views() == old(self).token_views(),
            (node_result_view(res), final(self).position()) == parse_spec(
                old(self).token_views(),
                old(self).position(),
            ),
            old(self).position() <= final(self).position() <= first_eof(final(self).token_views())
                < final(self).token_views().len(),
            res is Ok ==> old(self).position() < final(self).position() && closes(
                final(self).token_views(),
                final(self).position(),
            ),
    {
        proof {
            use_type_invariant(&*self);
        }
        let (r, q) = self.expr_at(self.pos, 0);
        self.pos = q;
        match r {
            Err(e) => Err(e),
            Ok(n) => {
                let at_end = matches!(self.tokens[q], Token::EOF);
                if !at_end && !self.at_op(q, Operators::RParen) && !self.at_op(q, Operators::RBracket) {
                    Err(ParseError::TrailingToken(copy_token(&self.tokens[q])))
                } else {
                    Ok(n)
                }
            },
        }
    }

    /// The token at `p` is the operator `op`.
    fn at_op(&self, p: usize, op: Operators) -> (r: bool)
        requires
            self.wf(),
            p < self.tokens.len(),
        ensures
            r == op_at(self.token_views(), p as int, op),
    {
        match &self.tokens[p] {
            Token::Operator(o) => *o == op,
            _ => false,
        }
    }

    /// A token at or before the first `EOF` that is not `EOF` lies before it.
    proof fn lemma_next_in_bounds(&self, p: int)
        requires
            self.wf(),
            0 <= p <= self.eof_index(),
            !(self.token_views()[p] is EOF),
        ensures
            p + 1 <= self.eof_index(),
    {
    }

    fn implicit_at(&self, p: usize) -> (r: bool)
        requires
            self.wf(),
            p <= self.eof_index(),
        ensures
            r == implicit_multiplication(self.token_views(), p as int),
    {
        let prev = if p > 0 {
            &self.tokens[p - 1]
        } else {
            &self.tokens[0]
        };
        let cur = &self.tokens[p];
        matches!(
            prev,
            Token::Integer(_) | Token::Number(_) | Token::Complex(_, _) | Token::Identifier(_)
                | Token::Operator(Operators::RParen) | Token::Operator(Operators::RBracket)
        ) && matches!(
            cur,
            Token::Number(_) | Token::Complex(_, _) | Token::Identifier(_) | Token::Operator(Operators::LParen)
        )
    }

    fn definition_at(&self, p: usize) -> (r: bool)
        requires
            self.wf(),
        ensures
            r == definition_ahead(self.token_views(), p as int),
    {
        let len = self.tokens.len();
        if p >= len || !self.at_op(p, Operators::LParen) {
            return false;
        }
        let mut q = p + 1;
        while q < len && !self.at_op(q, Operators::RParen)
            invariant
                self.wf(),
                len == self.tokens.len(),
                p < q <= len,
                first_rparen(self.token_views(), p + 1) == first_rparen(self.token_views(), q as int),
            decreases len - q,
        {
            q = q + 1;
        }
        q < len && q + 1 < len && self.at_op(q + 1, Operators::Equal)
    }


    /// An expression from `p` whose operators bind tighter than `prec`.
    fn expr_at(&self, p: usize, prec: u8) -> (r: (Result<Node, ParseError>, usize))
        requires
            self.wf(),
            p <= self.eof_index(),
        ensures
            (node_result_view(r.0), r.1 as int) == expr_spec(self.token_views(), p as int, prec),
            p <= r.1 <= self.eof_index(),
            r.0 is Ok && !(0 < prec <= 4 && op_at(self.token_views(), p as int, Operators::Colon))
                ==> p < r.1,
        decreases self.tokens.len() - p, 2int,
    {
        let ghost t = self.token_views();
        if 0 < prec && prec <= 4 && self.at_op(p, Operators::Colon) {
            return (Ok(Node::EmptySlice), p);
        }
        let (r0, q0) = self.prefix_at(p);
        let mut left = match r0 {
            Err(e) => {
                return (Err(e), q0);
            },
            Ok(n) => n,
        };
        let mut q = q0;
        loop
            invariant
                self.wf(),
                t == self.token_views(),
                p < q <= self.eof_index(),
                expr_loop_spec(t, q as int, prec, left@) == expr_spec(t, p as int, prec),
            decreases self.tokens.len() - q,
        {
            if self.at_op(q, Operators::Prime) {
                let mut e = q;
                let mut order: i64 = 0;
                while self.at_op(e, Operators::Prime)
                    invariant
                        self.wf(),
                        t == self.token_views(),
                        q <= e <= self.eof_index(),
                        order == e - q,
                        primes_end(t, q as int) == primes_end(t, e as int),
                    decreases self.tokens.len() - e,
                {
                    proof {
                        self.lemma_next_in_bounds(e as int);
                    }
                    order = order + 1;
                    e = e + 1;
                }
                let ghost d = NodeView::DerivativeExpr {
                    var: derivative_variable(left@),
                    order: Box::new(NodeView::Integer((e - q) as i64)),
                    body: Box::new(left@),
                };
                assert(primes_end(t, e as int) == e);
                assert(expr_loop_spec(t, q as int, prec, left@) == expr_loop_spec(t, e as int, prec, d));
                let var = derivative_var(&left);
                left = Node::DerivativeExpr {
                    var,
                    order: Box::new(Node::Integer(order)),
                    body: Box::new(left),
                };
                assert(left@ == d) by {
                    reveal_with_fuel(ast::node_view, 2);
                }
                q = e;
                continue;
            }
            if self.implicit_at(q) {
                if prec >= 7 {
                    return (Ok(left), q);
                }
                let (r, q2) = self.expr_at(q, 7);
                match r {
                    Err(e) => {
                        return (Err(e), q2);
                    },
                    Ok(right) => {
                        left = Node::BinOp {
                            op: Operators::Star,
                            left: Box::new(left),
                            right: Box::new(right),
                        };
                        q = q2;
                        continue;
                    },
                }
            }
            let op = match &self.tokens[q] {
                Token::Operator(op) => *op,
                _ => {
                    return (Ok(left), q);
                },
            };
            let opp = match op.bin_precedence() {
                Some(x) => x,
                None => {
                    return (Ok(left), q);
                },
            };
            if prec >= opp {
                return (Ok(left), q);
            }
            proof {
                self.lemma_next_in_bounds(q as int);
            }
            if op == Operators::RangeDots {
                assert(expr_loop_spec(t, q as int, prec, left@) == range_spec(t, q + 1, prec, left@));
                let (r, q1) = self.expr_at(q + 1, 4);
                let end = match r {
                    Err(e) => {
                        return (Err(e), q1);
                    },
                    Ok(n) => n,
                };
                if self.at_op(q1, Operators::Comma) {
                    proof {
                        self.lemma_next_in_bounds(q1 as int);
                    }
                    let (rs, q2) = self.expr_at(q1 + 1, 4);
                    match rs {
                        Err(e) => {
                            return (Err(e), q2);
                        },
                        Ok(step) => {
                            left = Node::Range {
                                start: Box::new(left),
                                end: Box::new(end),
                                step: Some(Box::new(step)),
                            };
                            q = q2;
                        },
                    }
                } else {
                    left = Node::Range { start: Box::new(left), end: Box::new(end), step: None };
                    q = q1;
                }
            } else if op == Operators::LBracket {
                let (ri, q1) = if self.at_op(q + 1, Operators::RBracket) {
                    proof {
                        lemma_nodes_view_push(Seq::empty(), Node::EmptySlice);
                    }
                    (Ok(Vec::new()), q + 1)
                } else {
                    self.index_list_at(q + 1)
                };
                let indices = match ri {
                    Err(e) => {
                        return (Err(e), q1);
                    },
                    Ok(v) => v,
                };
                if !self.at_op(q1, Operators::RBracket) {
                    return (Err(ParseError::Expected(Expectation::IndexClose)), q1);
                }
                proof {
                    self.lemma_next_in_bounds(q1 as int);
                }
                left = Node::Index { expr: Box::new(left), indices };
                q = q1 + 1;
            } else {
                let rp = if op.is_right_associative() {
                    opp - 1
                } else {
                    opp
                };
                let (r, q1) = self.expr_at(q + 1, rp);
                match r {
                    Err(e) => {
                        return (Err(e), q1);
                    },
                    Ok(right) => {
                        left = Node::BinOp { op, left: Box::new(left), right: Box::new(right) };
                        q = q1;
                    },
                }
            }
        }
    }

    /// The indices of `a[..]` from `p`.
    fn index_list_at(&self, p: usize) -> (r: (Result<Vec<Node>, ParseError>, usize))
        requires
            self.wf(),
            p <= self.eof_index(),
        ensures
            (nodes_result_view(r.0), r.1 as int) == index_list_spec(
                self.token_views(),
                p as int,
                Seq::empty(),
            ),
            p <= r.1 <= self.eof_index(),
        decreases self.tokens.len() - p, 3int,
    {
        let ghost t = self.token_views();
        let mut acc: Vec<Node> = Vec::new();
        let mut q = p;
        proof {
            lemma_nodes_view_push(acc@, Node::EmptySlice);
        }
        loop
            invariant
                self.wf(),
                t == self.token_views(),
                p <= q <= self.eof_index(),
                index_list_spec(t, q as int, ast::nodes_view(acc@)) == index_list_spec(t, p as int, Seq::empty()),
            decreases self.tokens.len() - q,
        {
            let (r, q1) = if self.at_op(q, Operators::Colon) {
                proof {
                    self.lemma_next_in_bounds(q as int);
                }
                (Ok(Node::EmptySlice), q + 1)
            } else {
                self.expr_at(q, 0)
            };
            let n = match r {
                Err(e) => {
                    return (Err(e), q1);
                },
                Ok(n) => n,
            };
            proof {
                lemma_nodes_view_push(acc@, n);
            }
            acc.push(n);
            if self.at_op(q1, Operators::Comma) {
                proof {
                    self.lemma_next_in_bounds(q1 as int);
                }
                q = q1 + 1;
            } else {
                return (Ok(acc), q1);
            }
        }
    }


    /// An expression that starts at `p`.
    fn prefix_at(&self, p: usize) -> (r: (Result<Node, ParseError>, usize))
        requires
            self.wf(),
            p <= self.eof_index(),
        ensures
            (node_result_view(r.0), r.1 as int) == prefix_spec(self.token_views(), p as int),
            p <= r.1 <= self.eof_index(),
            r.0 is Ok ==> p < r.1,
        decreases self.tokens.len() - p, 1int,
    {
        match &self.tokens[p] {
            Token::EOF => (Err(ParseError::UnexpectedToken(Token::EOF)), p),
            tk => {
                proof {
                    self.lemma_next_in_bounds(p as int);
                }
                match tk {
                    Token::Integer(n) => (Ok(Node::Integer(*n)), p + 1),
                    Token::Number(s) => (Ok(Node::Number(s.clone())), p + 1),
                    Token::Complex(re, im) => (Ok(Node::Complex(re.clone(), im.clone())), p + 1),
                    Token::Identifier(name) => self.identifier_at(p + 1, name.clone()),
                    Token::Operator(o) => {
                        let op = *o;
                        match op.unary_precedence() {
                            Some(pr) => {
                                let (r, q) = self.expr_at(p + 1, pr);
                                match r {
                                    Err(e) => (Err(e), q),
                                    Ok(child) => (Ok(Node::UnaryOp { op, child: Box::new(child) }), q),
                                }
                            },
                            None => {
                                if op == Operators::LParen {
                                    let (r, q) = self.expr_at(p + 1, 0);
                                    match r {
                                        Err(e) => (Err(e), q),
                                        Ok(e) => {
                                            if self.at_op(q, Operators::RParen) {
                                                proof {
                                                    self.lemma_next_in_bounds(q as int);
                                                }
                                                (Ok(e), q + 1)
                                            } else {
                                                (Err(ParseError::Expected(Expectation::CloseParen)), q)
                                            }
                                        },
                                    }
                                } else if op == Operators::LBracket {
                                    self.matrix_at(p)
                                } else if op == Operators::Colon {
                                    (Ok(Node::EmptySlice), p + 1)
                                } else {
                                    (Err(ParseError::UnexpectedOperator(op)), p)
                                }
                            },
                        }
                    },
                    Token::EOF => (Err(ParseError::UnexpectedToken(Token::EOF)), p),
                }
            },
        }
    }

    /// What follows the identifier `name`, from `p`.
    fn identifier_at(&self, p: usize, name: String) -> (r: (Result<Node, ParseError>, usize))
        requires
            self.wf(),
            p <= self.eof_index(),
        ensures
            (node_result_view(r.0), r.1 as int) == identifier_spec(self.token_views(), p as int, name@),
            p <= r.1 <= self.eof_index(),
        decreases self.tokens.len() - p, 1int,
    {
        if calculus_name(&name) && self.at_op(p, Operators::LBracket) {
            proof {
                self.lemma_next_in_bounds(p as int);
            }
            self.calculus_at(p + 1, name)
        } else if self.at_op(p, Operators::LParen) {
            proof {
                self.lemma_next_in_bounds(p as int);
            }
            if self.at_op(p + 1, Operators::Equal) || self.definition_at(p) {
                self.function_def_at(p, name)
            } else {
                self.function_call_at(p, name)
            }
        } else {
            let cases = letter_cases(name.as_str());
            (Ok(name_node(name, &cases)), p)
        }
    }

    /// A calculus form `name[..](..)` from after its `[`.
    fn calculus_at(&self, p: usize, name: String) -> (r: (Result<Node, ParseError>, usize))
        requires
            self.wf(),
            p <= self.eof_index(),
        ensures
            (node_result_view(r.0), r.1 as int) == calculus_spec(self.token_views(), p as int, name@),
            p <= r.1 <= self.eof_index(),
        decreases self.tokens.len() - p, 0int,
    {
        match &self.tokens[p] {
            Token::Identifier(v) => {
                proof {
                    self.lemma_next_in_bounds(p as int);
                }
                let v = v.clone();
                let s = name.as_str();
                let is_sum = str_eq(s, "sum");
                if is_sum || str_eq(s, "prod") {
                    self.sum_at(p + 1, is_sum, v)
                } else if str_eq(s, "int") {
                    self.integral_at(p + 1, v)
                } else if str_eq(s, "lim") {
                    self.limit_at(p + 1, v)
                } else {
                    self.diff_at(p + 1, v)
                }
            },
            _ => (Err(ParseError::MissingVariable(name)), p),
        }
    }

    /// `sum[v = range](body)` or `prod[..](..)` from after `v`.
    fn sum_at(&self, p: usize, is_sum: bool, v: String) -> (r: (Result<Node, ParseError>, usize))
        requires
            self.wf(),
            p <= self.eof_index(),
        ensures
            (node_result_view(r.0), r.1 as int) == sum_spec(self.token_views(), p as int, is_sum, v@),
            p <= r.1 <= self.eof_index(),
        decreases self.tokens.len() - p, 0int,
    {
        if !self.at_op(p, Operators::Equal) {
            return (Err(ParseError::Expected(Expectation::SumEquals)), p);
        }
        proof {
            self.lemma_next_in_bounds(p as int);
        }
        let (rr, q1) = self.expr_at(p + 1, 0);
        let range = match rr {
            Err(e) => {
                return (Err(e), q1);
            },
            Ok(n) => n,
        };
        if !self.at_op(q1, Operators::RBracket) {
            return (Err(ParseError::Expected(Expectation::SumBoundsClose)), q1);
        }
        proof {
            self.lemma_next_in_bounds(q1 as int);
        }
        if !self.at_op(q1 + 1, Operators::LParen) {
            return (Err(ParseError::Expected(Expectation::SumBodyOpen)), q1 + 1);
        }
        proof {
            self.lemma_next_in_bounds(q1 + 1);
        }
        let (rb, q2) = self.expr_at(q1 + 2, 0);
        let body = match rb {
            Err(e) => {
                return (Err(e), q2);
            },
            Ok(n) => n,
        };
        if !self.at_op(q2, Operators::RParen) {
            return (Err(ParseError::Expected(Expectation::SumBodyClose)), q2);
        }
        proof {
            self.lemma_next_in_bounds(q2 as int);
        }
        match range {
            Node::Range { start, end, .. } => {
                if is_sum {
                    (Ok(Node::Summation { var: v, start, end, body: Box::new(body) }), q2 + 1)
                } else {
                    (Ok(Node::Product { var: v, start, end, body: Box::new(body) }), q2 + 1)
                }
            },
            _ => (Err(ParseError::InvalidRange), q2 + 1),
        }
    }

    /// `int[v](body)` or `int[v, a, b](body)` from after `v`.
    #[verifier::rlimit(40)]
    fn integral_at(&self, p: usize, v: String) -> (r: (Result<Node, ParseError>, usize))
        requires
            self.wf(),
            p <= self.eof_index(),
        ensures
            (node_result_view(r.0), r.1 as int) == integral_spec(self.token_views(), p as int, v@),
            p <= r.1 <= self.eof_index(),
        decreases self.tokens.len() - p, 0int,
    {
        if self.at_op(p, Operators::Comma) {
            proof {
                self.lemma_next_in_bounds(p as int);
            }
            let (rs, q1) = self.expr_at(p + 1, 0);
            let start = match rs {
                Err(e) => {
                    return (Err(e), q1);
                },
                Ok(n) => n,
            };
            if !self.at_op(q1, Operators::Comma) {
                return (Err(ParseError::Expected(Expectation::IntegralBoundsComma)), q1);
            }
            proof {
                self.lemma_next_in_bounds(q1 as int);
            }
            let (re, q2) = self.expr_at(q1 + 1, 0);
            let end = match re {
                Err(e) => {
                    return (Err(e), q2);
                },
                Ok(n) => n,
            };
            if !self.at_op(q2, Operators::RBracket) {
                return (Err(ParseError::Expected(Expectation::IntegralBoundsClose)), q2);
            }
            proof {
                self.lemma_next_in_bounds(q2 as int);
            }
            if !self.at_op(q2 + 1, Operators::LParen) {
                return (Err(ParseError::Expected(Expectation::IntegralBodyOpen)), q2 + 1);
            }
            proof {
                self.lemma_next_in_bounds(q2 + 1);
            }
            let (rb, q3) = self.expr_at(q2 + 2, 0);
            let body = match rb {
                Err(e) => {
                    return (Err(e), q3);
                },
                Ok(n) => n,
            };
            if !self.at_op(q3, Operators::RParen) {
                return (Err(ParseError::Expected(Expectation::IntegralBodyClose)), q3);
            }
            proof {
                self.lemma_next_in_bounds(q3 as int);
            }
            (
                Ok(
                    Node::DefIntegral {
                        var: v,
                        start: Box::new(start),
                        end: Box::new(end),
                        body: Box::new(body),
                    },
                ),
                q3 + 1,
            )
        } else {
            if !self.at_op(p, Operators::RBracket) {
                return (Err(ParseError::Expected(Expectation::IntegralVariableClose)), p);
            }
            proof {
                self.lemma_next_in_bounds(p as int);
            }
            if !self.at_op(p + 1, Operators::LParen) {
                return (Err(ParseError::Expected(Expectation::IntegralBodyOpen)), p + 1);
            }
            proof {
                self.lemma_next_in_bounds(p + 1);
            }
            let (rb, q) = self.expr_at(p + 2, 0);
            let body = match rb {
                Err(e) => {
                    return (Err(e), q);
                },
                Ok(n) => n,
            };
            if !self.at_op(q, Operators::RParen) {
                return (Err(ParseError::Expected(Expectation::IntegralBodyClose)), q);
            }
            proof {
                self.lemma_next_in_bounds(q as int);
            }
            (Ok(Node::IndefIntegral { var: v, body: Box::new(body) }), q + 1)
        }
    }

    /// `lim[v -> target](body)` from after `v`.
    fn limit_at(&self, p: usize, v: String) -> (r: (Result<Node, ParseError>, usize))
        requires
            self.wf(),
            p <= self.eof_index(),
        ensures
            (node_result_view(r.0), r.1 as int) == limit_spec(self.token_views(), p as int, v@),
            p <= r.1 <= self.eof_index(),
        decreases self.tokens.len() - p, 0int,
    {
        if !self.at_op(p, Operators::Minus) {
            return (Err(ParseError::Expected(Expectation::LimitArrow)), p);
        }
        proof {
            self.lemma_next_in_bounds(p as int);
        }
        if !self.at_op(p + 1, Operators::GreaterThan) {
            return (Err(ParseError::Expected(Expectation::LimitArrow)), p + 1);
        }
        proof {
            self.lemma_next_in_bounds(p + 1);
        }
        let (rt, q1) = self.expr_at(p + 2, 0);
        let target = match rt {
            Err(e) => {
                return (Err(e), q1);
            },
            Ok(n) => n,
        };
        if !self.at_op(q1, Operators::RBracket) {
            return (Err(ParseError::Expected(Expectation::LimitClose)), q1);
        }
        proof {
            self.lemma_next_in_bounds(q1 as int);
        }
        if !self.at_op(q1 + 1, Operators::LParen) {
            return (Err(ParseError::Expected(Expectation::LimitBodyOpen)), q1 + 1);
        }
        proof {
            self.lemma_next_in_bounds(q1 + 1);
        }
        let (rb, q2) = self.expr_at(q1 + 2, 0);
        let body = match rb {
            Err(e) => {
                return (Err(e), q2);
            },
            Ok(n) => n,
        };
        if !self.at_op(q2, Operators::RParen) {
            return (Err(ParseError::Expected(Expectation::LimitBodyClose)), q2);
        }
        proof {
            self.lemma_next_in_bounds(q2 as int);
        }
        (Ok(Node::Limit { var: v, target: Box::new(target), body: Box::new(body) }), q2 + 1)
    }

    /// `diff[v](body)` or `diff[v, order](body)` from after `v`.
    #[verifier::rlimit(40)]
    fn diff_at(&self, p: usize, v: String) -> (r: (Result<Node, ParseError>, usize))
        requires
            self.wf(),
            p <= self.eof_index(),
        ensures
            (node_result_view(r.0), r.1 as int) == diff_spec(self.token_views(), p as int, v@),
            p <= r.1 <= self.eof_index(),
        decreases self.tokens.len() - p, 0int,
    {
        let (ro, q1) = if self.at_op(p, Operators::Comma) {
            proof {
                self.lemma_next_in_bounds(p as int);
            }
            self.expr_at(p + 1, 0)
        } else {
            let one = String::from_str("1.0");
            proof {
                reveal_strlit("1.0");
                assert(one@ =~= unit_text());
            }
            (Ok(Node::Number(one)), p)
        };
        let order = match ro {
            Err(e) => {
                return (Err(e), q1);
            },
            Ok(n) => n,
        };
        if !self.at_op(q1, Operators::RBracket) {
            return (Err(ParseError::Expected(Expectation::DiffClose)), q1);
        }
        proof {
            self.lemma_next_in_bounds(q1 as int);
        }
        if !self.at_op(q1 + 1, Operators::LParen) {
            return (Err(ParseError::Expected(Expectation::OpenParen)), q1 + 1);
        }
        proof {
            self.lemma_next_in_bounds(q1 + 1);
        }
        let (rb, q2) = self.expr_at(q1 + 2, 0);
        let body = match rb {
            Err(e) => {
                return (Err(e), q2);
            },
            Ok(n) => n,
        };
        if !self.at_op(q2, Operators::RParen) {
            return (Err(ParseError::Expected(Expectation::CloseParen)), q2);
        }
        proof {
            self.lemma_next_in_bounds(q2 as int);
        }
        let d = Node::DerivativeExpr { var: v, order: Box::new(order), body: Box::new(body) };
        assert(d@ == NodeView::DerivativeExpr {
            var: v@,
            order: Box::new(order@),
            body: Box::new(body@),
        });
        (Ok(d), q2 + 1)
    }

    /// The parameters of a definition from `p`.
    fn param_list_at(&self, p: usize) -> (r: (Result<Vec<String>, ParseError>, usize))
        requires
            self.wf(),
            p <= self.eof_index(),
        ensures
            (strings_result_view(r.0), r.1 as int) == param_list_spec(
                self.token_views(),
                p as int,
                Seq::empty(),
            ),
            p <= r.1 <= self.eof_index(),
    {
        let ghost t = self.token_views();
        let mut acc: Vec<String> = Vec::new();
        let mut q = p;
        proof {
            lemma_strings_view_push(acc@, arbitrary());
        }
        loop
            invariant
                self.wf(),
                t == self.token_views(),
                p <= q <= self.eof_index(),
                param_list_spec(t, q as int, ast::strings_view(acc@)) == param_list_spec(t, p as int, Seq::empty()),
            decreases self.tokens.len() - q,
        {
            match &self.tokens[q] {
                Token::Identifier(s) => {
                    proof {
                        self.lemma_next_in_bounds(q as int);
                        lemma_strings_view_push(acc@, *s);
                    }
                    acc.push(s.clone());
                    if self.at_op(q + 1, Operators::Comma) {
                        proof {
                            self.lemma_next_in_bounds(q + 1);
                        }
                        q = q + 2;
                    } else {
                        return (Ok(acc), q + 1);
                    }
                },
                _ => {
                    return (Err(ParseError::ExpectedParameter), q);
                },
            }
        }
    }

    /// A definition `name(params) = body` from its `(`.
    fn function_def_at(&self, p: usize, name: String) -> (r: (Result<Node, ParseError>, usize))
        requires
            self.wf(),
            p <= self.eof_index(),
        ensures
            (node_result_view(r.0), r.1 as int) == function_def_spec(self.token_views(), p as int, name@),
            p <= r.1 <= self.eof_index(),
        decreases self.tokens.len() - p, 0int,
    {
        if !self.at_op(p, Operators::LParen) {
            return (Err(ParseError::Expected(Expectation::OpenParen)), p);
        }
        proof {
            self.lemma_next_in_bounds(p as int);
        }
        let (rp, q1) = if self.at_op(p + 1, Operators::RParen) {
            proof {
                lemma_strings_view_push(Seq::empty(), arbitrary());
            }
            (Ok(Vec::new()), p + 1)
        } else {
            self.param_list_at(p + 1)
        };
        let params = match rp {
            Err(e) => {
                return (Err(e), q1);
            },
            Ok(v) => v,
        };
        if !self.at_op(q1, Operators::RParen) {
            return (Err(ParseError::Expected(Expectation::CloseParen)), q1);
        }
        proof {
            self.lemma_next_in_bounds(q1 as int);
        }
        if !self.at_op(q1 + 1, Operators::Equal) {
            return (Err(ParseError::Expected(Expectation::DefinitionEquals)), q1 + 1);
        }
        proof {
            self.lemma_next_in_bounds(q1 + 1);
        }
        let (rb, q2) = self.expr_at(q1 + 2, 0);
        match rb {
            Err(e) => (Err(e), q2),
            Ok(body) => (Ok(Node::FunctionDef { name, params, body: Box::new(body) }), q2),
        }
    }

    /// The arguments of a call from `p`.
    fn arg_list_at(&self, p: usize) -> (r: (Result<Vec<Node>, ParseError>, usize))
        requires
            self.wf(),
            p <= self.eof_index(),
        ensures
            (nodes_result_view(r.0), r.1 as int) == arg_list_spec(
                self.token_views(),
                p as int,
                Seq::empty(),
            ),
            p <= r.1 <= self.eof_index(),
        decreases self.tokens.len() - p, 3int,
    {
        let ghost t = self.token_views();
        let mut acc: Vec<Node> = Vec::new();
        let mut q = p;
        proof {
            lemma_nodes_view_push(acc@, Node::EmptySlice);
        }
        loop
            invariant
                self.wf(),
                t == self.token_views(),
                p <= q <= self.eof_index(),
                arg_list_spec(t, q as int, ast::nodes_view(acc@)) == arg_list_spec(t, p as int, Seq::empty()),
            decreases self.tokens.len() - q,
        {
            let (r, q1) = self.expr_at(q, 0);
            let n = match r {
                Err(e) => {
                    return (Err(e), q1);
                },
                Ok(n) => n,
            };
            proof {
                lemma_nodes_view_push(acc@, n);
            }
            acc.push(n);
            if self.at_op(q1, Operators::Comma) {
                proof {
                    self.lemma_next_in_bounds(q1 as int);
                }
                q = q1 + 1;
            } else {
                return (Ok(acc), q1);
            }
        }
    }

    /// A call `name(args)` from its `(`.
    fn function_call_at(&self, p: usize, name: String) -> (r: (Result<Node, ParseError>, usize))
        requires
            self.wf(),
            p <= self.eof_index(),
        ensures
            (node_result_view(r.0), r.1 as int) == function_call_spec(self.token_views(), p as int, name@),
            p <= r.1 <= self.eof_index(),
        decreases self.tokens.len() - p, 0int,
    {
        if !self.at_op(p, Operators::LParen) {
            return (Err(ParseError::Expected(Expectation::OpenParen)), p);
        }
        proof {
            self.lemma_next_in_bounds(p as int);
        }
        let (ra, q) = if self.at_op(p + 1, Operators::RParen) {
            proof {
                lemma_nodes_view_push(Seq::empty(), Node::EmptySlice);
            }
            (Ok(Vec::new()), p + 1)
        } else {
            self.arg_list_at(p + 1)
        };
        let args = match ra {
            Err(e) => {
                return (Err(e), q);
            },
            Ok(v) => v,
        };
        if !self.at_op(q, Operators::RParen) {
            return (Err(ParseError::Expected(Expectation::CloseParen)), q);
        }
        proof {
            self.lemma_next_in_bounds(q as int);
        }
        (Ok(Node::FunctionCall { name, args: Box::new(args) }), q + 1)
    }

    /// A matrix from its `[`.
    fn matrix_at(&self, p: usize) -> (r: (Result<Node, ParseError>, usize))
        requires
            self.wf(),
            p <= self.eof_index(),
        ensures
            (node_result_view(r.0), r.1 as int) == matrix_spec(self.token_views(), p as int),
            p <= r.1 <= self.eof_index(),
            r.0 is Ok ==> p < r.1,
        decreases self.tokens.len() - p, 0int,
    {
        let ghost t = self.token_views();
        if !self.at_op(p, Operators::LBracket) {
            return (Err(ParseError::Expected(Expectation::OpenBracket)), p);
        }
        proof {
            self.lemma_next_in_bounds(p as int);
        }
        if self.at_op(p + 1, Operators::RBracket) {
            proof {
                self.lemma_next_in_bounds(p + 1);
                lemma_rows_view_push(Seq::empty(), arbitrary());
            }
            return (Ok(Node::Matrix { rows: Vec::new() }), p + 2);
        }
        let mut rows: Vec<Vec<Node>> = Vec::new();
        let mut q = p + 1;
        proof {
            lemma_rows_view_push(rows@, arbitrary());
        }
        while !self.at_op(q, Operators::RBracket)
            invariant
                self.wf(),
                t == self.token_views(),
                p < q <= self.eof_index(),
                matrix_rows_spec(t, q as int, ast::rows_view(rows@)) == matrix_spec(t, p as int),
            decreases self.tokens.len() - q,
        {
            let (r, q1) = self.matrix_row_at(q);
            let row = match r {
                Err(e) => {
                    return (Err(e), q1);
                },
                Ok(v) => v,
            };
            proof {
                lemma_rows_view_push(rows@, row);
            }
            rows.push(row);
            q = q1;
        }
        proof {
            self.lemma_next_in_bounds(q as int);
        }
        (Ok(Node::Matrix { rows }), q + 1)
    }

    /// The elements of one matrix row from `p`.
    fn matrix_row_at(&self, p: usize) -> (r: (Result<Vec<Node>, ParseError>, usize))
        requires
            self.wf(),
            p <= self.eof_index(),
        ensures
            (nodes_result_view(r.0), r.1 as int) == matrix_row_spec(
                self.token_views(),
                p as int,
                Seq::empty(),
            ),
            p <= r.1 <= self.eof_index(),
            r.0 is Ok && !op_at(self.token_views(), p as int, Operators::RBracket) ==> p < r.1,
        decreases self.tokens.len() - p, 4int,
    {
        let ghost t = self.token_views();
        let mut row: Vec<Node> = Vec::new();
        let mut q = p;
        proof {
            lemma_nodes_view_push(row@, Node::EmptySlice);
        }
        loop
            invariant
                self.wf(),
                t == self.token_views(),
                p <= q <= self.eof_index(),
                matrix_row_spec(t, q as int, ast::nodes_view(row@)) == matrix_row_spec(t, p as int, Seq::empty()),
            decreases self.tokens.len() - q,
        {
            if self.at_op(q, Operators::RBracket) {
                return (Ok(row), q);
            }
            if self.at_op(q, Operators::Semicolon) {
                proof {
                    self.lemma_next_in_bounds(q as int);
                }
                return (Ok(row), q + 1);
            }
            let (r, q1) = self.expr_at(q, 0);
            let e = match r {
                Err(e) => {
                    return (Err(e), q1);
                },
                Ok(n) => n,
            };
            proof {
                lemma_nodes_view_push(row@, e);
            }
            row.push(e);
            if self.at_op(q1, Operators::Comma) {
                proof {
                    self.lemma_next_in_bounds(q1 as int);
                }
                q = q1 + 1;
            } else if self.at_op(q1, Operators::Semicolon) {
                proof {
                    self.lemma_next_in_bounds(q1 as int);
                }
                return (Ok(row), q1 + 1);
            } else if self.at_op(q1, Operators::RBracket) {
                return (Ok(row), q1);
            } else {
                return (Err(ParseError::MatrixSeparator(copy_token(&self.tokens[q1]))), q1);
            }
        }
    }

} // impl Parser

} // verus!
