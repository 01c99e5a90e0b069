use cubelang::lexer::{Keyword, LexError, Lexer, Token};
use cubelang::number::Decimal;
use cubelang::text::{chars_of, same_text};

fn tokens_of(code: &str) -> Vec<Token> {
    Lexer::parse(code).unwrap().tokens().to_vec()
}

fn number(text: &str) -> Token {
    Token::Number(Decimal::from_literal(text).unwrap())
}

fn value(d: &Decimal) -> f64 {
    let digits: String = d.digits().iter().map(|x| char::from(b'0' + *x)).collect();
    let whole: f64 = if digits.is_empty() { 0.0 } else { digits.parse().unwrap() };
    let v = whole / 10f64.powi(d.scale() as i32);
    if d.is_negative() {
        -v
    } else {
        v
    }
}

fn only_number(code: &str) -> Decimal {
    let tokens = tokens_of(code);
    assert_eq!(tokens.len(), 2);
    assert_eq!(tokens[1], Token::Eof);
    match &tokens[0] {
        Token::Number(d) => d.clone(),
        other => panic!("not a number: {other:?}"),
    }
}

#[test]
fn whitespace_only_gives_eof() {
    for code in ["", " ", "\t\t", "\n\r\n", "  \t \n "] {
        assert_eq!(tokens_of(code), vec![Token::Eof]);
    }
}

#[test]
fn single_punctuation_gives_its_token() {
    let cases = [
        ("(", Token::OpenParenthesis),
        (")", Token::CloseParenthesis),
        ("[", Token::OpenBracket),
        ("]", Token::CloseBracket),
        ("+", Token::Plus),
        ("*", Token::Asterisk),
        ("/", Token::ForwardSlash),
        (">", Token::GreaterThan),
        ("<", Token::LessThan),
        (",", Token::Comma),
        (":", Token::Colon),
    ];
    for (code, token) in cases {
        assert_eq!(tokens_of(code), vec![token, Token::Eof]);
    }
}

#[test]
fn lone_minus_and_period_are_operators() {
    assert_eq!(tokens_of("-"), vec![Token::Minus, Token::Eof]);
    assert_eq!(tokens_of("."), vec![Token::Period, Token::Eof]);
    assert_eq!(tokens_of("- a"), vec![Token::Minus, Token::Identifier("a".to_string()), Token::Eof]);
    assert_eq!(tokens_of(".a"), vec![Token::Period, Token::Identifier("a".to_string()), Token::Eof]);
}

#[test]
fn numeric_values_round_trip() {
    let cases = [
        ("1234.5", 1234.5),
        ("0.6", 0.6),
        ("1234", 1234.0),
        ("-56890", -56890.0),
        (".35", 0.35),
        ("-123.4567", -123.4567),
        ("12.", 12.0),
        ("-.5", -0.5),
    ];
    for (code, expected) in cases {
        assert_eq!(value(&only_number(code)), expected, "{code}");
    }
}

#[test]
fn numbers_are_held_in_canonical_form() {
    let d = only_number("1234.5");
    assert_eq!(d.digits(), &vec![1, 2, 3, 4, 5]);
    assert_eq!(d.scale(), 1);
    assert!(!d.is_negative());

    let d = only_number("-0.050");
    assert_eq!(d.digits(), &vec![5]);
    assert_eq!(d.scale(), 2);
    assert!(d.is_negative());

    let d = only_number("-0.0");
    assert!(d.digits().is_empty());
    assert_eq!(d.scale(), 0);
    assert!(!d.is_negative());

    assert_eq!(number(".35"), number("0.35"));
    assert_eq!(number("1234"), number("1234.000"));
    assert_eq!(number("007"), number("7"));
    assert_ne!(number("7"), number("-7"));
    assert_ne!(number("0.7"), number("7"));
}

#[test]
fn literal_reader_rejects_what_is_no_number() {
    for text in ["", "-", ".", "-.", "1.2.3", "1..", "1a", "+1", "--1", " 1"] {
        assert_eq!(Decimal::from_literal(text), None, "{text}");
    }
}

#[test]
fn quotes_are_symmetric() {
    let expected = vec![Token::String("abc".to_string()), Token::Eof];
    assert_eq!(tokens_of("\"abc\""), expected);
    assert_eq!(tokens_of("'abc'"), expected);
    assert_eq!(tokens_of("\"it's\""), vec![Token::String("it's".to_string()), Token::Eof]);
    assert_eq!(tokens_of("''"), vec![Token::String(String::new()), Token::Eof]);
}

#[test]
fn keywords_are_case_sensitive() {
    assert_eq!(tokens_of("None"), vec![Token::Identifier("None".to_string()), Token::Eof]);
    assert_eq!(tokens_of("none"), vec![Token::Keyword(Keyword::NoneValue), Token::Eof]);
    assert_eq!(tokens_of("IF"), vec![Token::Identifier("IF".to_string()), Token::Eof]);
    assert_eq!(tokens_of("iffy"), vec![Token::Identifier("iffy".to_string()), Token::Eof]);
}

#[test]
fn keyword_table_lookup() {
    let table = [
        ("end", Keyword::End),
        ("fn", Keyword::Fn),
        ("data", Keyword::Data),
        ("var", Keyword::Var),
        ("return", Keyword::Return),
        ("is", Keyword::Is),
        ("not", Keyword::Not),
        ("if", Keyword::If),
        ("elif", Keyword::Elif),
        ("else", Keyword::Else),
        ("none", Keyword::NoneValue),
        ("true", Keyword::True),
        ("false", Keyword::False),
    ];
    for (text, kw) in table {
        assert_eq!(Keyword::get(text), Some(kw));
    }
    for text in ["", "End", "ends", "en", "x", "null"] {
        assert_eq!(Keyword::get(text), None);
    }
}

#[test]
fn minus_fuses_with_following_digit() {
    assert_eq!(tokens_of("3 - -5"), vec![number("3"), Token::Minus, number("-5"), Token::Eof]);
    assert_eq!(tokens_of("3-5"), vec![number("3"), number("-5"), Token::Eof]);
    assert_eq!(tokens_of("x-y"), vec![
        Token::Identifier("x".to_string()),
        Token::Minus,
        Token::Identifier("y".to_string()),
        Token::Eof,
    ]);
}

#[test]
fn eighteen_token_expression() {
    let tokens = tokens_of("(12 * 3) - 4 + 2.46 / (3 - -34.2437 * -.5)");
    assert_eq!(tokens.len(), 18);
    assert_eq!(tokens[13], number("-34.2437"));
    assert_eq!(tokens[15], number("-0.5"));
    assert_eq!(tokens[17], Token::Eof);
}

#[test]
fn unterminated_string_is_an_error() {
    assert_eq!(Lexer::parse("'abc").err(), Some(LexError::UnterminatedString(0)));
    assert_eq!(Lexer::parse("x \"abc'").err(), Some(LexError::UnterminatedString(2)));
}

#[test]
fn unexpected_character_is_an_error() {
    assert_eq!(Lexer::parse("hello there &").err(), Some(LexError::UnexpectedCharacter('&', 12)));
    assert_eq!(Lexer::parse("a_b").err(), Some(LexError::UnexpectedCharacter('_', 1)));
    assert_eq!(Lexer::parse("é").err(), Some(LexError::UnexpectedCharacter('é', 0)));
    assert_eq!(Lexer::parse("'é' !").err(), Some(LexError::UnexpectedCharacter('!', 4)));
}

#[test]
fn malformed_number_is_an_error() {
    assert_eq!(
        Lexer::parse("x 1.2.3").err(),
        Some(LexError::MalformedNumber("1.2.3".to_string(), 2))
    );
    assert_eq!(Lexer::parse("-.").err(), Some(LexError::MalformedNumber("-.".to_string(), 0)));
}

#[test]
fn first_error_wins() {
    assert_eq!(Lexer::parse("& 'abc").err(), Some(LexError::UnexpectedCharacter('&', 0)));
    assert_eq!(Lexer::parse("'abc &").err(), Some(LexError::UnterminatedString(0)));
}

#[test]
fn text_helpers() {
    assert_eq!(chars_of("aé b"), vec!['a', 'é', ' ', 'b']);
    assert!(same_text("abc", "abc"));
    assert!(!same_text("abc", "abd"));
    assert!(!same_text("abc", "ab"));
}
