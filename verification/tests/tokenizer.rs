use lox::number::Number;
use lox::token::Token;
use lox::tokenizer::tokenize_with_context;

fn tokenize(buf: &str) -> Vec<Token> {
    tokenize_with_context(buf).iter().map(|tc| tc.value.clone()).collect()
}

fn number(text: &str) -> Token {
    Token::Number(Number::from_literal(text).unwrap())
}

#[test]
fn tokenizer_test_errors() {
    assert_eq!(tokenize("\"test"), vec![Token::UnterminatedString]);
    assert_eq!(tokenize("&"), vec![Token::Unknown('&')]);
    assert_eq!(tokenize("&&"), vec![Token::Unknown('&'), Token::Unknown('&')]);
    assert_eq!(tokenize("& 3.14"), vec![Token::Unknown('&'), number("3.14")]);
}

#[test]
fn test() {
    assert_eq!(tokenize(""), vec![]);
    assert_eq!(tokenize("="), vec![Token::Equal]);
    assert_eq!(tokenize("=="), vec![Token::EqualEqual]);
    assert_eq!(tokenize("== = =="), vec![Token::EqualEqual, Token::Equal, Token::EqualEqual]);
    assert_eq!(tokenize("//test"), vec![]);
    assert_eq!(tokenize("=//test"), vec![Token::Equal]);
    assert_eq!(
        tokenize(
            "=//test
        ="
        ),
        vec![Token::Equal, Token::Equal]
    );
    assert_eq!(tokenize("\"test\""), vec![Token::String("test".to_string())]);
    assert_eq!(tokenize("12.34"), vec![number("12.34")]);
    assert_eq!(tokenize("99"), vec![number("99")]);
    assert_eq!(tokenize("99."), vec![number("99"), Token::Dot]);
    assert_eq!(tokenize("99.="), vec![number("99"), Token::Dot, Token::Equal]);
    assert_eq!(tokenize("!"), vec![Token::Bang]);
    assert_eq!(tokenize("!="), vec![Token::BangEqual]);
    assert_eq!(tokenize("test"), vec![Token::Identifier("test".to_string())]);
    assert_eq!(tokenize("orchid"), vec![Token::Identifier("orchid".to_string())]);
    assert_eq!(tokenize("or"), vec![Token::Or]);
}
