use calculator::peeker::Peeker;
use calculator::tokeniser::{tokenise, Number, Token};

fn cursor(text: &str) -> Peeker {
    Peeker { vec: tokenise(text.to_string()).unwrap(), at: 0 }
}

fn literal(text: &str) -> Token {
    Token::Constant(Number::Literal(text.to_string()))
}

#[test]
fn peek_looks_ahead_from_the_cursor() {
    let mut p = cursor("(1)2");
    assert_eq!(p.peek(0), Some(&Token::LParen));
    assert_eq!(p.peek(1), Some(&literal("1")));
    assert_eq!(p.peek(3), Some(&literal("2")));
    assert_eq!(p.peek(4), None);
    p.at = 2;
    assert_eq!(p.peek(0), Some(&Token::RParen));
    assert_eq!(p.peek(1), Some(&literal("2")));
    assert_eq!(p.peek(2), None);
}

#[test]
fn peek_far_ahead_finds_nothing() {
    let mut p = cursor("(1)2");
    assert_eq!(p.peek(usize::MAX), None);
    p.at = 3;
    assert_eq!(p.peek(usize::MAX), None);
    p.at = usize::MAX;
    assert_eq!(p.peek(0), None);
    assert_eq!(p.peek(1), None);
    assert_eq!(p.peek(usize::MAX), None);
}

#[test]
fn next_moves_on_and_gives_the_token_there() {
    let mut p = cursor("(1)");
    assert_eq!(p.next(), Some(&literal("1")));
    assert_eq!(p.at, 1);
    assert_eq!(p.next(), Some(&Token::RParen));
    assert_eq!(p.at, 2);
    assert_eq!(p.next(), None);
    assert_eq!(p.at, 3);
}

#[test]
fn next_past_the_end_stays() {
    let mut p = cursor("(1)");
    p.at = 3;
    assert_eq!(p.next(), None);
    assert_eq!(p.at, 3);
    p.at = usize::MAX;
    assert_eq!(p.next(), None);
    assert_eq!(p.at, usize::MAX);
    let mut empty = cursor("");
    assert_eq!(empty.next(), None);
    assert_eq!(empty.at, 0);
}

#[test]
fn next_leaves_the_tokens() {
    let mut p = cursor("(1)2");
    let _ = p.next();
    let _ = p.next();
    assert_eq!(p.vec, tokenise("(1)2".to_string()).unwrap());
}
