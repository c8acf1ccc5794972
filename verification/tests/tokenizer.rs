use migine::chars::chars_of;
use migine::tokenized::{classify, tokenize_chars, tokenizez, Operators, Token, TokenizeError};

fn num(s: &str) -> Token {
    Token::Number(s.to_string())
}

fn ident(s: &str) -> Token {
    Token::Identifier(s.to_string())
}

fn op(o: Operators) -> Token {
    Token::Operator(o)
}

#[test]
fn empty_input_is_only_eof() {
    assert_eq!(tokenizez(""), Ok(vec![Token::EOF]));
    assert_eq!(tokenizez("  \t\n "), Ok(vec![Token::EOF]));
}

#[test]
fn integers_and_operators() {
    assert_eq!(
        tokenizez("1 + 23*4"),
        Ok(vec![
            Token::Integer(1),
            op(Operators::Plus),
            Token::Integer(23),
            op(Operators::Star),
            Token::Integer(4),
            Token::EOF
        ])
    );
}

#[test]
fn real_literals_keep_their_text() {
    assert_eq!(tokenizez("3.5"), Ok(vec![num("3.5"), Token::EOF]));
    assert_eq!(tokenizez(".5"), Ok(vec![num(".5"), Token::EOF]));
    assert_eq!(tokenizez("1e3"), Ok(vec![num("1e3"), Token::EOF]));
    assert_eq!(tokenizez("2E-4"), Ok(vec![num("2E-4"), Token::EOF]));
    assert_eq!(tokenizez("1.e+5"), Ok(vec![num("1.e+5"), Token::EOF]));
    assert_eq!(tokenizez("7."), Ok(vec![num("7."), Token::EOF]));
}

#[test]
fn integer_limits() {
    assert_eq!(tokenizez("9223372036854775807"), Ok(vec![Token::Integer(i64::MAX), Token::EOF]));
    assert_eq!(
        tokenizez("9223372036854775808"),
        Ok(vec![num("9223372036854775808"), Token::EOF])
    );
    assert_eq!(tokenizez("007"), Ok(vec![Token::Integer(7), Token::EOF]));
}

#[test]
fn real_texts_parse_as_f64() {
    let Ok(tokens) = tokenizez("0.25 1e2 9223372036854775808 .5 7. 1.e+5 2E-4") else { panic!() };
    let values: Vec<f64> = tokens
        .iter()
        .filter_map(|t| match t {
            Token::Number(s) => Some(s.parse::<f64>().unwrap()),
            _ => None,
        })
        .collect();
    assert_eq!(values, vec![0.25, 100.0, 9223372036854775808.0, 0.5, 7.0, 100000.0, 0.0002]);
}

#[test]
fn complex_literals() {
    assert_eq!(
        tokenizez("2j"),
        Ok(vec![Token::Complex("0.0".to_string(), "2".to_string()), Token::EOF])
    );
    assert_eq!(
        tokenizez("1.5e1j"),
        Ok(vec![Token::Complex("0.0".to_string(), "1.5e1".to_string()), Token::EOF])
    );
}

#[test]
fn range_dots() {
    assert_eq!(
        tokenizez("1..5"),
        Ok(vec![Token::Integer(1), op(Operators::RangeDots), Token::Integer(5), Token::EOF])
    );
    assert_eq!(
        tokenizez("1.5..2"),
        Ok(vec![num("1.5"), op(Operators::RangeDots), Token::Integer(2), Token::EOF])
    );
    assert_eq!(tokenizez(".."), Ok(vec![op(Operators::RangeDots), Token::EOF]));
}

#[test]
fn number_errors() {
    assert_eq!(tokenizez("1.2.3"), Err(TokenizeError::InvalidNumber));
    assert_eq!(tokenizez("."), Err(TokenizeError::InvalidNumber));
    assert_eq!(tokenizez("1.2.3j"), Err(TokenizeError::InvalidComplex));
    assert_eq!(tokenizez(".j"), Err(TokenizeError::InvalidComplex));
    assert_eq!(tokenizez("1e"), Err(TokenizeError::MissingExponentDigits));
    assert_eq!(tokenizez("1e+"), Err(TokenizeError::MissingExponentDigits));
    assert_eq!(tokenizez("2E-x"), Err(TokenizeError::MissingExponentDigits));
}

#[test]
fn unknown_characters() {
    assert_eq!(tokenizez("#"), Err(TokenizeError::UnknownCharacter('#')));
    assert_eq!(tokenizez("1 + $"), Err(TokenizeError::UnknownCharacter('$')));
    assert_eq!(tokenizez("_x"), Err(TokenizeError::UnknownCharacter('_')));
}

#[test]
fn identifiers() {
    assert_eq!(
        tokenizez("x_1 y2 é"),
        Ok(vec![ident("x_1"), ident("y2"), ident("é"), Token::EOF])
    );
    assert_eq!(
        tokenizez("2x"),
        Ok(vec![Token::Integer(2), ident("x"), Token::EOF])
    );
}

#[test]
fn two_character_operators() {
    assert_eq!(
        tokenizez("a!=b<=c>=d==e"),
        Ok(vec![
            ident("a"),
            op(Operators::NotEqual),
            ident("b"),
            op(Operators::LessEqual),
            ident("c"),
            op(Operators::GreaterEqual),
            ident("d"),
            op(Operators::DoubleEqual),
            ident("e"),
            Token::EOF
        ])
    );
    assert_eq!(
        tokenizez("! < > ="),
        Ok(vec![
            op(Operators::Exclamation),
            op(Operators::LessThan),
            op(Operators::GreaterThan),
            op(Operators::Equal),
            Token::EOF
        ])
    );
}

#[test]
fn single_character_operators() {
    assert_eq!(
        tokenizez("+-*/^,;:()[]&|'"),
        Ok(vec![
            op(Operators::Plus),
            op(Operators::Minus),
            op(Operators::Star),
            op(Operators::Slash),
            op(Operators::Caret),
            op(Operators::Comma),
            op(Operators::Semicolon),
            op(Operators::Colon),
            op(Operators::LParen),
            op(Operators::RParen),
            op(Operators::LBracket),
            op(Operators::RBracket),
            op(Operators::Ampersand),
            op(Operators::Pipe),
            op(Operators::Prime),
            Token::EOF
        ])
    );
}

#[test]
fn classes_come_from_std() {
    let cs = chars_of("a 1_");
    let cls = classify(&cs);
    assert_eq!(cs, vec!['a', ' ', '1', '_']);
    assert!(cls[0].alphabetic && cls[0].alphanumeric && !cls[0].whitespace);
    assert!(cls[1].whitespace && !cls[1].alphabetic && !cls[1].alphanumeric);
    assert!(!cls[2].alphabetic && cls[2].alphanumeric && !cls[2].whitespace);
    assert!(!cls[3].alphabetic && !cls[3].alphanumeric && !cls[3].whitespace);
}

#[test]
fn eof_only_at_the_end() {
    let Ok(tokens) = tokenizez("f(x) = x^2 + 3.5j") else { panic!() };
    assert_eq!(tokens.last(), Some(&Token::EOF));
    assert_eq!(tokens.iter().filter(|t| **t == Token::EOF).count(), 1);
}

#[test]
fn tokenize_chars_follows_given_classes() {
    let cs = chars_of("ab c");
    let mut cls = classify(&cs);
    // With the space taken as part of identifiers, one identifier is read.
    cls[2].whitespace = false;
    cls[2].alphanumeric = true;
    assert_eq!(tokenize_chars(&cs, &cls), Ok(vec![ident("ab c"), Token::EOF]));
}

#[test]
fn whitespace_separates_tokens() {
    let a = tokenizez("f(x)+1.5").unwrap();
    let b = tokenizez("y!=2j").unwrap();
    let joined = tokenizez("f(x)+1.5 y!=2j").unwrap();
    let mut expected = a[..a.len() - 1].to_vec();
    expected.extend(b);
    assert_eq!(joined, expected);
    // Without the space, `!` and `=` read as one token.
    assert_eq!(tokenizez("! ="), Ok(vec![op(Operators::Exclamation), op(Operators::Equal), Token::EOF]));
    assert_eq!(tokenizez("!="), Ok(vec![op(Operators::NotEqual), Token::EOF]));
}
