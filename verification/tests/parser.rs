use migine::ast::Node;
use migine::parse;
use migine::parsed::{Expectation, ParseError, Parser};
use migine::tokenized::{tokenizez, Operators, Token, TokenizeError};
use migine::SyntaxError;

fn integer(n: i64) -> Node {
    Node::Integer(n)
}

fn var(s: &str) -> Node {
    Node::Variable(s.to_string())
}

fn cst(s: &str) -> Node {
    Node::Constant(s.to_string())
}

fn bin(op: Operators, l: Node, r: Node) -> Node {
    Node::BinOp { op, left: Box::new(l), right: Box::new(r) }
}

fn call(name: &str, args: Vec<Node>) -> Node {
    Node::FunctionCall { name: name.to_string(), args: Box::new(args) }
}

fn perr(e: ParseError) -> Result<Node, SyntaxError> {
    Err(SyntaxError::Parse(e))
}

fn expected(e: Expectation) -> Result<Node, SyntaxError> {
    perr(ParseError::Expected(e))
}

#[test]
fn precedence_of_sum_and_product() {
    assert_eq!(
        parse("1 + 2 * 3"),
        Ok(bin(Operators::Plus, integer(1), bin(Operators::Star, integer(2), integer(3))))
    );
    assert_eq!(
        parse("(1 + 2) * 3"),
        Ok(bin(Operators::Star, bin(Operators::Plus, integer(1), integer(2)), integer(3)))
    );
}

#[test]
fn caret_groups_right_minus_groups_left() {
    assert_eq!(
        parse("2^3^2"),
        Ok(bin(Operators::Caret, integer(2), bin(Operators::Caret, integer(3), integer(2))))
    );
    assert_eq!(
        parse("a - b - c"),
        Ok(bin(Operators::Minus, bin(Operators::Minus, var("a"), var("b")), var("c")))
    );
    assert_eq!(
        parse("a = b = c"),
        Ok(bin(Operators::Equal, var("a"), bin(Operators::Equal, var("b"), var("c"))))
    );
}

#[test]
fn prefix_operators() {
    assert_eq!(
        parse("-x"),
        Ok(Node::UnaryOp { op: Operators::Minus, child: Box::new(var("x")) })
    );
    assert_eq!(
        parse("-2^2"),
        Ok(Node::UnaryOp {
            op: Operators::Minus,
            child: Box::new(bin(Operators::Caret, integer(2), integer(2)))
        })
    );
    assert_eq!(
        parse("!a * b"),
        Ok(bin(
            Operators::Star,
            Node::UnaryOp { op: Operators::Exclamation, child: Box::new(var("a")) },
            var("b")
        ))
    );
}

#[test]
fn logical_and_comparison_operators() {
    assert_eq!(
        parse("a | b & c"),
        Ok(bin(Operators::Pipe, var("a"), bin(Operators::Ampersand, var("b"), var("c"))))
    );
    assert_eq!(
        parse("a + 1 <= b"),
        Ok(bin(Operators::LessEqual, bin(Operators::Plus, var("a"), integer(1)), var("b")))
    );
}

#[test]
fn implicit_multiplication() {
    assert_eq!(parse("2x"), Ok(bin(Operators::Star, integer(2), var("x"))));
    assert_eq!(
        parse("2(x+1)"),
        Ok(bin(Operators::Star, integer(2), bin(Operators::Plus, var("x"), integer(1))))
    );
    assert_eq!(parse("(a)(b)"), Ok(bin(Operators::Star, var("a"), var("b"))));
    assert_eq!(
        parse("2x^2"),
        Ok(bin(Operators::Star, integer(2), bin(Operators::Caret, var("x"), integer(2))))
    );
}

#[test]
fn two_integers_do_not_multiply() {
    assert_eq!(parse("1 2"), perr(ParseError::TrailingToken(Token::Integer(2))));
}

#[test]
fn constants_and_variables() {
    assert_eq!(parse("PI"), Ok(cst("PI")));
    assert_eq!(parse("X1"), Ok(cst("X1")));
    assert_eq!(parse("Ab"), Ok(var("Ab")));
    assert_eq!(parse("x"), Ok(var("x")));
}

#[test]
fn literals() {
    assert_eq!(parse("3.25"), Ok(Node::Number("3.25".to_string())));
    assert_eq!(parse("4j"), Ok(Node::Complex("0.0".to_string(), "4".to_string())));
}

#[test]
fn calls_and_definitions() {
    assert_eq!(parse("f(x, 1)"), Ok(call("f", vec![var("x"), integer(1)])));
    assert_eq!(parse("f()"), Ok(call("f", vec![])));
    assert_eq!(
        parse("f(x) = x^2"),
        Ok(Node::FunctionDef {
            name: "f".to_string(),
            params: vec!["x".to_string()],
            body: Box::new(bin(Operators::Caret, var("x"), integer(2)))
        })
    );
    assert_eq!(
        parse("g(a, b) = a + b"),
        Ok(Node::FunctionDef {
            name: "g".to_string(),
            params: vec!["a".to_string(), "b".to_string()],
            body: Box::new(bin(Operators::Plus, var("a"), var("b")))
        })
    );
    assert_eq!(
        parse("g() = 1"),
        Ok(Node::FunctionDef { name: "g".to_string(), params: vec![], body: Box::new(integer(1)) })
    );
}

#[test]
fn primes_make_derivatives() {
    assert_eq!(
        parse("f(t)'"),
        Ok(Node::DerivativeExpr {
            var: "t".to_string(),
            order: Box::new(integer(1)),
            body: Box::new(call("f", vec![var("t")]))
        })
    );
    assert_eq!(
        parse("y''"),
        Ok(Node::DerivativeExpr {
            var: "x".to_string(),
            order: Box::new(integer(2)),
            body: Box::new(var("y"))
        })
    );
    assert_eq!(
        parse("f(1)'"),
        Ok(Node::DerivativeExpr {
            var: "x".to_string(),
            order: Box::new(integer(1)),
            body: Box::new(call("f", vec![integer(1)]))
        })
    );
}

#[test]
fn ranges() {
    assert_eq!(
        parse("1..10"),
        Ok(Node::Range { start: Box::new(integer(1)), end: Box::new(integer(10)), step: None })
    );
    assert_eq!(
        parse("1..10,2"),
        Ok(Node::Range {
            start: Box::new(integer(1)),
            end: Box::new(integer(10)),
            step: Some(Box::new(integer(2)))
        })
    );
}

#[test]
fn indexing() {
    assert_eq!(
        parse("A[1, :]"),
        Ok(Node::Index { expr: Box::new(cst("A")), indices: vec![integer(1), Node::EmptySlice] })
    );
    assert_eq!(
        parse("a[]"),
        Ok(Node::Index { expr: Box::new(var("a")), indices: vec![] })
    );
    assert_eq!(parse("a[1"), expected(Expectation::IndexClose));
    assert_eq!(parse("a[1:3]"), expected(Expectation::IndexClose));
}

#[test]
fn matrices() {
    assert_eq!(
        parse("[1, 2; 3, 4]"),
        Ok(Node::Matrix { rows: vec![vec![integer(1), integer(2)], vec![integer(3), integer(4)]] })
    );
    assert_eq!(parse("[]"), Ok(Node::Matrix { rows: vec![] }));
    assert_eq!(
        parse("[1;]"),
        Ok(Node::Matrix { rows: vec![vec![integer(1)]] })
    );
    assert_eq!(parse("[1 2]"), perr(ParseError::MatrixSeparator(Token::Integer(2))));
}

#[test]
fn sums_and_products() {
    assert_eq!(
        parse("sum[i = 1..10](i^2)"),
        Ok(Node::Summation {
            var: "i".to_string(),
            start: Box::new(integer(1)),
            end: Box::new(integer(10)),
            body: Box::new(bin(Operators::Caret, var("i"), integer(2)))
        })
    );
    assert_eq!(
        parse("prod[k = 1..n](k)"),
        Ok(Node::Product {
            var: "k".to_string(),
            start: Box::new(integer(1)),
            end: Box::new(var("n")),
            body: Box::new(var("k"))
        })
    );
    assert_eq!(parse("sum[i = 5](i)"), perr(ParseError::InvalidRange));
    assert_eq!(parse("sum[i 1..2](i)"), expected(Expectation::SumEquals));
    assert_eq!(parse("sum[i = 1..2 (i)"), expected(Expectation::SumBoundsClose));
    assert_eq!(parse("sum[i = 1..2] i"), expected(Expectation::SumBodyOpen));
    assert_eq!(parse("sum[i = 1..2](i"), expected(Expectation::SumBodyClose));
    assert_eq!(parse("sum[1]"), perr(ParseError::MissingVariable("sum".to_string())));
}

#[test]
fn integrals() {
    assert_eq!(
        parse("int[x](x)"),
        Ok(Node::IndefIntegral { var: "x".to_string(), body: Box::new(var("x")) })
    );
    assert_eq!(
        parse("int[x, 0, 1](x)"),
        Ok(Node::DefIntegral {
            var: "x".to_string(),
            start: Box::new(integer(0)),
            end: Box::new(integer(1)),
            body: Box::new(var("x"))
        })
    );
    assert_eq!(parse("int[x, 0 1](x)"), expected(Expectation::IntegralBoundsComma));
    assert_eq!(parse("int[x, 0, 1(x)"), expected(Expectation::IntegralBoundsClose));
    assert_eq!(parse("int[x, 0, 1] x"), expected(Expectation::IntegralBodyOpen));
    assert_eq!(parse("int[x](x"), expected(Expectation::IntegralBodyClose));
    assert_eq!(parse("int[x x"), expected(Expectation::IntegralVariableClose));
}

#[test]
fn limits() {
    assert_eq!(
        parse("lim[x -> 0](sin(x)/x)"),
        Ok(Node::Limit {
            var: "x".to_string(),
            target: Box::new(integer(0)),
            body: Box::new(bin(Operators::Slash, call("sin", vec![var("x")]), var("x")))
        })
    );
    assert_eq!(parse("lim[x 0](x)"), expected(Expectation::LimitArrow));
    assert_eq!(parse("lim[x - 0](x)"), expected(Expectation::LimitArrow));
    assert_eq!(parse("lim[x -> 0 (x)"), expected(Expectation::LimitClose));
    assert_eq!(parse("lim[x -> 0] x"), expected(Expectation::LimitBodyOpen));
    assert_eq!(parse("lim[x -> 0](x"), expected(Expectation::LimitBodyClose));
}

#[test]
fn derivatives() {
    assert_eq!(
        parse("diff[x](x^2)"),
        Ok(Node::DerivativeExpr {
            var: "x".to_string(),
            order: Box::new(Node::Number("1.0".to_string())),
            body: Box::new(bin(Operators::Caret, var("x"), integer(2)))
        })
    );
    assert_eq!(
        parse("diff[x, 2](y)"),
        Ok(Node::DerivativeExpr {
            var: "x".to_string(),
            order: Box::new(integer(2)),
            body: Box::new(var("y"))
        })
    );
    assert_eq!(parse("diff[x(y)"), expected(Expectation::DiffClose));
    assert_eq!(parse("diff[x] y"), expected(Expectation::OpenParen));
    assert_eq!(parse("diff[x](y"), expected(Expectation::CloseParen));
}

#[test]
fn calculus_name_without_bracket_is_a_name() {
    assert_eq!(parse("sum(x)"), Ok(call("sum", vec![var("x")])));
    assert_eq!(parse("lim"), Ok(var("lim")));
}

#[test]
fn empty_slice_and_colon() {
    assert_eq!(parse(":"), Ok(Node::EmptySlice));
    assert_eq!(parse("a[:]"), Ok(Node::Index { expr: Box::new(var("a")), indices: vec![Node::EmptySlice] }));
}

#[test]
fn parse_errors() {
    assert_eq!(parse(""), perr(ParseError::UnexpectedToken(Token::EOF)));
    assert_eq!(parse("(1"), expected(Expectation::CloseParen));
    assert_eq!(parse("*"), perr(ParseError::UnexpectedOperator(Operators::Star)));
    assert_eq!(parse("f(1) = 2"), perr(ParseError::ExpectedParameter));
    assert_eq!(parse("f(x) 2"), perr(ParseError::TrailingToken(Token::Integer(2))));
    assert_eq!(parse("f(x"), expected(Expectation::CloseParen));
}

#[test]
fn definition_errors() {
    assert_eq!(parse("f(x) ="), perr(ParseError::UnexpectedToken(Token::EOF)));
    assert_eq!(parse("f(x,) = 1"), perr(ParseError::ExpectedParameter));
}

#[test]
fn closing_tokens_may_follow() {
    assert_eq!(parse("1)"), Ok(integer(1)));
    assert_eq!(parse("x]"), Ok(var("x")));
}

#[test]
fn tokenize_errors_pass_through() {
    assert_eq!(parse("1 # 2"), Err(SyntaxError::Tokenize(TokenizeError::UnknownCharacter('#'))));
}

#[test]
fn parser_over_given_tokens() {
    let tokens = tokenizez("1 + x").unwrap();
    let mut p = Parser::new(tokens);
    assert_eq!(p.parse(), Ok(bin(Operators::Plus, integer(1), var("x"))));
    let tokens = vec![Token::Integer(5), Token::Operator(Operators::RParen), Token::EOF];
    let mut p = Parser::new(tokens);
    assert_eq!(p.parse(), Ok(integer(5)));
    assert_eq!(p.parse(), Err(ParseError::UnexpectedOperator(Operators::RParen)));
}

#[test]
fn grouping_follows_the_precedence_table() {
    // `*` binds tighter than `+` on either side.
    assert_eq!(
        parse("1*2+3"),
        Ok(bin(Operators::Plus, bin(Operators::Star, integer(1), integer(2)), integer(3)))
    );
    // Equal precedence, left-grouping.
    assert_eq!(
        parse("1-2-3"),
        Ok(bin(Operators::Minus, bin(Operators::Minus, integer(1), integer(2)), integer(3)))
    );
    assert_eq!(
        parse("8/4*2"),
        Ok(bin(Operators::Star, bin(Operators::Slash, integer(8), integer(4)), integer(2)))
    );
    // Right-grouping operators take an equal-precedence operator into their right operand.
    assert_eq!(
        parse("1=2<3"),
        Ok(bin(Operators::Equal, integer(1), bin(Operators::LessThan, integer(2), integer(3))))
    );
    assert_eq!(
        parse("1<2=3"),
        Ok(bin(Operators::Equal, bin(Operators::LessThan, integer(1), integer(2)), integer(3)))
    );
}

#[test]
fn prefix_operator_grouping() {
    assert_eq!(
        parse("-1*2"),
        Ok(bin(
            Operators::Star,
            Node::UnaryOp { op: Operators::Minus, child: Box::new(integer(1)) },
            integer(2)
        ))
    );
    assert_eq!(
        parse("+1^2"),
        Ok(Node::UnaryOp {
            op: Operators::Plus,
            child: Box::new(bin(Operators::Caret, integer(1), integer(2)))
        })
    );
}

#[test]
fn parser_position_only_moves_forward() {
    // Parsing stops at `)`, which the next parse cannot start with.
    let tokens = tokenizez("2 + 3) - 1").unwrap();
    let mut p = Parser::new(tokens);
    assert_eq!(p.parse(), Ok(bin(Operators::Plus, integer(2), integer(3))));
    assert_eq!(p.parse(), Err(ParseError::UnexpectedOperator(Operators::RParen)));
    assert_eq!(p.parse(), Err(ParseError::UnexpectedOperator(Operators::RParen)));
}

#[test]
fn parentheses_override_grouping() {
    assert_eq!(
        parse("(2^3)^2"),
        Ok(bin(Operators::Caret, bin(Operators::Caret, integer(2), integer(3)), integer(2)))
    );
    assert_eq!(
        parse("(1-2)*3"),
        Ok(bin(Operators::Star, bin(Operators::Minus, integer(1), integer(2)), integer(3)))
    );
}

#[test]
fn cloned_trees_are_equal() {
    for text in [
        "f(x) = x^2",
        "A[1, :] + [1, 2; 3, 4]",
        "sum[i = 1..10](i^2) * prod[k = 1..n](k)",
        "int[x, 0, 1](x) - int[x](x)",
        "f(t)'' + -2.5 + 3j",
        "lim[x->0](x) + diff[x](x^2)",
        "1..10, 2",
    ] {
        let tree = parse(text).unwrap();
        assert_eq!(tree.clone(), tree);
    }
}
