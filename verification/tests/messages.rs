use migine::ast::Node;
use migine::chars::str_eq;
use migine::messages::integer_string;
use migine::parse;
use migine::parsed::{letter_cases, name_node, Expectation, LetterCase, ParseError, Parser};
use migine::tokenized::{tokenizez, Operators, Token, TokenizeError};
use migine::SyntaxError;

#[test]
fn parser_stops_at_the_first_eof() {
    let tokens = vec![Token::Integer(1), Token::EOF, Token::Integer(2)];
    let mut p = Parser::new(tokens);
    assert_eq!(p.parse(), Ok(Node::Integer(1)));
    // The position stays on the first `EOF`: parsing again finds nothing.
    assert_eq!(p.parse(), Err(ParseError::UnexpectedToken(Token::EOF)));
    assert_eq!(p.parse(), Err(ParseError::UnexpectedToken(Token::EOF)));
}

#[test]
fn eof_first_is_an_empty_parse() {
    let mut p = Parser::new(vec![Token::EOF, Token::Integer(7), Token::EOF]);
    assert_eq!(p.parse(), Err(ParseError::UnexpectedToken(Token::EOF)));
}

#[test]
fn name_node_from_given_cases() {
    let upper = LetterCase { alphabetic: true, uppercase: true };
    let lower = LetterCase { alphabetic: true, uppercase: false };
    let digit = LetterCase { alphabetic: false, uppercase: false };
    assert_eq!(
        name_node("AB1".to_string(), &vec![upper, upper, digit]),
        Node::Constant("AB1".to_string())
    );
    assert_eq!(
        name_node("Ab".to_string(), &vec![upper, lower]),
        Node::Variable("Ab".to_string())
    );
    assert_eq!(name_node("_1".to_string(), &vec![digit, digit]), Node::Constant("_1".to_string()));
}

#[test]
fn letter_cases_follow_std() {
    assert_eq!(
        letter_cases("aB_"),
        vec![
            LetterCase { alphabetic: true, uppercase: false },
            LetterCase { alphabetic: true, uppercase: true },
            LetterCase { alphabetic: false, uppercase: false },
        ]
    );
    assert_eq!(letter_cases("Ω"), vec![LetterCase { alphabetic: true, uppercase: true }]);
}

#[test]
fn identifiers_by_case() {
    assert_eq!(parse("PI"), Ok(Node::Constant("PI".to_string())));
    assert_eq!(parse("x_1"), Ok(Node::Variable("x_1".to_string())));
    assert_eq!(parse("Ωω"), Ok(Node::Variable("Ωω".to_string())));
}

#[test]
fn string_equality() {
    assert!(str_eq("sum", "sum"));
    assert!(!str_eq("sum", "sun"));
    assert!(!str_eq("sum", "su"));
    assert!(str_eq("", ""));
}

#[test]
fn unicode_whitespace_separates_tokens() {
    assert_eq!(tokenizez("\u{3000}1\u{00A0}+\u{2003}2"), tokenizez("1 + 2"));
    assert_eq!(tokenizez("\u{2028}"), Ok(vec![Token::EOF]));
}

#[test]
fn integers_in_decimal() {
    assert_eq!(integer_string(0), "0");
    assert_eq!(integer_string(42), "42");
    assert_eq!(integer_string(-7), "-7");
    assert_eq!(integer_string(i64::MIN), "-9223372036854775808");
    assert_eq!(integer_string(i64::MAX), "9223372036854775807");
}

#[test]
fn token_texts() {
    assert_eq!(Token::Integer(-12).text(), Some("Integer(-12)".to_string()));
    assert_eq!(Token::Identifier("x".to_string()).text(), Some("Identifier(\"x\")".to_string()));
    assert_eq!(Token::Operator(Operators::LParen).text(), Some("Operator(LParen)".to_string()));
    assert_eq!(Token::EOF.text(), Some("EOF".to_string()));
    assert_eq!(Token::Number("1.5".to_string()).text(), None);
    assert_eq!(Token::Complex("0.0".to_string(), "2".to_string()).text(), None);
    assert_eq!(Operators::GreaterEqual.name(), "GreaterEqual");
}

#[test]
fn tokenize_error_messages() {
    assert_eq!(TokenizeError::InvalidComplex.message(), "Invalid complex number");
    assert_eq!(TokenizeError::InvalidNumber.message(), "Invalid number");
    assert_eq!(TokenizeError::UnknownCharacter('#').message(), "Unknown character: #");
    assert_eq!(
        TokenizeError::MissingExponentDigits.message(),
        "Scientific notation lacks exponent digits"
    );
}

#[test]
fn parse_error_messages() {
    assert_eq!(
        ParseError::Expected(Expectation::LimitArrow).message(),
        Some("Expected '->' in limit definition".to_string())
    );
    assert_eq!(Expectation::CloseParen.message(), "Expected ')'");
    assert_eq!(
        ParseError::MissingVariable("sum".to_string()).message(),
        Some("Expected variable name inside sum[...]".to_string())
    );
    assert_eq!(
        ParseError::InvalidRange.message(),
        Some("Expected a valid range (e.g., 1..10,2) inside sum/prod bounds".to_string())
    );
    assert_eq!(
        ParseError::UnexpectedOperator(Operators::Star).message(),
        Some("Unexpected prefix operator: Star".to_string())
    );
    assert_eq!(
        ParseError::UnexpectedToken(Token::EOF).message(),
        Some("Unexpected token: EOF".to_string())
    );
    assert_eq!(
        ParseError::MatrixSeparator(Token::Identifier("b".to_string())).message(),
        Some("Expected ',', ';' or ']' after matrix element, got Identifier(\"b\")".to_string())
    );
    assert_eq!(
        ParseError::ExpectedParameter.message(),
        Some("Expected parameter identifier in function def".to_string())
    );
    assert_eq!(
        ParseError::TrailingToken(Token::Integer(3)).message(),
        Some("Unexpected token after expression: Integer(3)".to_string())
    );
    assert_eq!(ParseError::TrailingToken(Token::Number("2.5".to_string())).message(), None);
}

#[test]
fn syntax_error_messages() {
    assert_eq!(
        parse("1 # 2").unwrap_err().message(),
        Some("Unknown character: #".to_string())
    );
    assert_eq!(
        parse("(1 + 2").unwrap_err().message(),
        Some("Expected ')'".to_string())
    );
    assert_eq!(
        SyntaxError::Parse(ParseError::UnexpectedToken(Token::Complex("0".to_string(), "1".to_string())))
            .message(),
        None
    );
}
