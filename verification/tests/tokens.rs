use underpass_turbo::ql::tokens::{LexError, LexErrorKind, Token, Tokenizer};
use underpass_turbo::ql::Decimal;

fn tokenize(input: &str) -> Vec<Token> {
    let mut tokenizer = Tokenizer::new(input);
    let mut tokens = vec![];
    while let Some(Ok((_position, token))) = tokenizer.next() {
        tokens.push(token);
    }
    tokens
}

#[test]
fn numbers() {
    assert_eq!(tokenize("23.5 . 5 . 6 . 7.8"),
               vec![
                   Token::Number(Decimal { units: 23, nanos: 500_000_000 }),
                   Token::Period,
                   Token::Number(Decimal { units: 5, nanos: 0 }),
                   Token::Period,
                   Token::Number(Decimal { units: 6, nanos: 0 }),
                   Token::Period,
                   Token::Number(Decimal { units: 7, nanos: 800_000_000 }),
               ]);
}

#[test]
fn string_literals() {
    assert_eq!(tokenize("\"foo\" 'bar' \"quux\\\"fnord\""),
               vec![
                   Token::StringLiteral("foo".to_owned()),
                   Token::StringLiteral("bar".to_owned()),
                   Token::StringLiteral("quux\"fnord".to_owned()),
               ]);
}

#[test]
fn it_works() {
    assert_eq!(tokenize("(._; >;);"),
               vec![Token::ParenthesisOpen,
                    Token::Period,
                    Token::StringLiteral("_".to_owned()),
                    Token::Semicolon,
                    Token::RecurseDown,
                    Token::Semicolon,
                    Token::ParenthesisClose,
                    Token::Semicolon
               ]);
}

#[test]
fn unterminated_string_is_an_error() {
    let mut tokenizer = Tokenizer::new("node 'abc");
    assert_eq!(tokenizer.next(), Some(Ok((0, Token::StringLiteral("node".to_owned())))));
    assert_eq!(
        tokenizer.next(),
        Some(Err(LexError { position: 5, kind: LexErrorKind::UnterminatedString }))
    );
}
