use bfi::lexer::{Lexer, Token};

#[test]
fn lexer_test_new() {
    let input = String::from("+-<>[],.");
    let mut lexer = Lexer::new(input.clone());
    assert_eq!(lexer.input, input);
    assert_eq!(lexer.position, 0);
    lexer.next_token();
    assert_eq!(lexer.position, 1);
}

#[test]
fn test_peek_token() {
    let lexer = Lexer::new(String::from("+-<>[],."));
    assert_eq!(lexer.peek_token(), Some(Token::Incr));
    assert_eq!(lexer.position, 0);
    assert_eq!(lexer.peek_token(), Some(Token::Incr));
    assert_eq!(lexer.position, 0);
    assert_eq!(lexer.peek_token(), Some(Token::Incr));
    assert_eq!(lexer.position, 0);
}

#[test]
fn test_next_token() {
    let mut lexer = Lexer::new(String::from("+-<>[],."));
    assert_eq!(lexer.next_token(), Some(Token::Incr));
    assert_eq!(lexer.next_token(), Some(Token::Decr));
    assert_eq!(lexer.next_token(), Some(Token::Prev));
    assert_eq!(lexer.next_token(), Some(Token::Next));
    assert_eq!(lexer.next_token(), Some(Token::LoopStart));
    assert_eq!(lexer.next_token(), Some(Token::LoopEnd));
    assert_eq!(lexer.next_token(), Some(Token::Input));
    assert_eq!(lexer.next_token(), Some(Token::Output));
    assert_eq!(lexer.next_token(), None);
}

#[test]
fn test_next_token_other() {
    let mut lexer = Lexer::new(String::from("abc123"));
    assert_eq!(lexer.next_token(), Some(Token::Other('a')));
    assert_eq!(lexer.next_token(), Some(Token::Other('b')));
    assert_eq!(lexer.next_token(), Some(Token::Other('c')));
    assert_eq!(lexer.next_token(), Some(Token::Other('1')));
    assert_eq!(lexer.next_token(), Some(Token::Other('2')));
    assert_eq!(lexer.next_token(), Some(Token::Other('3')));
    assert_eq!(lexer.next_token(), None);
}

#[test]
fn test_peek_does_not_consume_non_ascii() {
    let mut lexer = Lexer::new(String::from("é+"));
    assert_eq!(lexer.peek_token(), Some(Token::Other('é')));
    assert_eq!(lexer.next_token(), Some(Token::Other('é')));
    assert_eq!(lexer.next_token(), Some(Token::Incr));
    assert_eq!(lexer.next_token(), None);
}
