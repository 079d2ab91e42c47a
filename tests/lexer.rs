use memscan::lexer::{parse_number, Lexer, Token};

fn literal<'a>(input: &'a str, t: &Token) -> Option<(&'a str, bool)> {
    match t {
        Token::Number(s, e, hex) => Some((&input[*s..*e], *hex)),
        _ => None,
    }
}

#[test]
fn test_tokenize_simple() {
    let mut lexer = Lexer::new("100D;200F");
    let tokens = lexer.tokenize().unwrap();
    assert_eq!(tokens.len(), 5);
}

#[test]
fn test_tokenize_hex() {
    let mut lexer = Lexer::new("10h;FFh");
    let tokens = lexer.tokenize().unwrap();
    assert!(matches!(tokens[0], Token::Number(_, _, true)));
}

#[test]
fn test_parse_number() {
    assert_eq!(parse_number("100", false).unwrap(), 100);
    assert_eq!(parse_number("1,000", false).unwrap(), 1000);
    assert_eq!(parse_number("10h", true).unwrap(), 16);
    assert_eq!(parse_number("FFh", true).unwrap(), 255);
}

#[test]
fn test_tokenize_float() {
    let input = "1.0F;3.14D";
    let mut lexer = Lexer::new(input);
    let tokens = lexer.tokenize().unwrap();
    assert_eq!(tokens.len(), 5);
    assert_eq!(literal(input, &tokens[0]), Some(("1.0", false)));
}

#[test]
fn test_tokenize_float_with_range() {
    let input = "1.0~10.5F";
    let mut lexer = Lexer::new(input);
    let tokens = lexer.tokenize().unwrap();
    assert_eq!(tokens.len(), 4);
    assert_eq!(literal(input, &tokens[0]), Some(("1.0", false)));
    assert!(matches!(tokens[1], Token::Tilde));
    assert_eq!(literal(input, &tokens[2]), Some(("10.5", false)));
}

#[test]
fn parse_number_rejects_bad_digits() {
    assert!(parse_number("12A", false).is_err());
    assert!(parse_number("", false).is_err());
    assert!(parse_number(",", false).is_err());
    assert!(parse_number("170141183460469231731687303715884105728", false).is_err());
    assert_eq!(parse_number("170141183460469231731687303715884105727", false).unwrap(), i128::MAX);
}

#[test]
fn tokenize_colons_tildes_and_types() {
    let mut lexer = Lexer::new(" 50~100~~D :: 64 ");
    let tokens = lexer.tokenize().unwrap();
    assert_eq!(tokens.len(), 7);
    assert!(matches!(tokens[1], Token::Tilde));
    assert!(matches!(tokens[3], Token::DoubleTilde));
    assert!(matches!(tokens[4], Token::Type(_)));
    assert!(matches!(tokens[5], Token::DoubleColon));
}

#[test]
fn tokenize_rejects_unknown_characters() {
    assert!(Lexer::new("100$").tokenize().is_err());
    assert!(Lexer::new("1.5h").tokenize().is_err());
    assert!(Lexer::new("100Z").tokenize().is_err());
}
