use thegrep::tokenizer::{Token, Tokenizer};

#[test]
fn empty() {
    let mut tokens = Tokenizer::new("");
    assert_eq!(tokens.next(), None);
    assert_eq!(tokens.next(), None);
}

#[test]
fn parenthesis() {
    let mut tokens = Tokenizer::new("()");
    assert_eq!(tokens.next(), Some(Token::LParen));
    assert_eq!(tokens.next(), Some(Token::RParen));
}

#[test]
fn union() {
    let mut tokens = Tokenizer::new("|");
    assert_eq!(tokens.next(), Some(Token::UnionBar));
    assert_eq!(tokens.next(), None);
}

#[test]
fn kleene() {
    let mut tokens = Tokenizer::new("*");
    assert_eq!(tokens.next(), Some(Token::KleeneStar));
    assert_eq!(tokens.next(), None);
}

#[test]
fn anychar() {
    let mut tokens = Tokenizer::new(".");
    assert_eq!(tokens.next(), Some(Token::AnyChar));
    assert_eq!(tokens.next(), None);
}

#[test]
fn char() {
    let mut tokens = Tokenizer::new("a");
    assert_eq!(tokens.next(), Some(Token::Char('a')));
    assert_eq!(tokens.next(), None);
}

#[test]
fn alltokens() {
    let mut tokens = Tokenizer::new("a|*().");
    assert_eq!(tokens.next(), Some(Token::Char('a')));
    assert_eq!(tokens.next(), Some(Token::UnionBar));
    assert_eq!(tokens.next(), Some(Token::KleeneStar));
    assert_eq!(tokens.next(), Some(Token::LParen));
    assert_eq!(tokens.next(), Some(Token::RParen));
    assert_eq!(tokens.next(), Some(Token::AnyChar));
    assert_eq!(tokens.next(), None);
}

#[test]
fn plus_is_a_token() {
    let mut tokens = Tokenizer::new("a+");
    assert_eq!(tokens.next(), Some(Token::Char('a')));
    assert_eq!(tokens.next(), Some(Token::KleenePlus));
    assert_eq!(tokens.next(), None);
}

#[test]
fn whitespace_is_literal() {
    let mut tokens = Tokenizer::new(" a\t\n");
    assert_eq!(tokens.next(), Some(Token::Char(' ')));
    assert_eq!(tokens.next(), Some(Token::Char('a')));
    assert_eq!(tokens.next(), Some(Token::Char('\t')));
    assert_eq!(tokens.next(), Some(Token::Char('\n')));
    assert_eq!(tokens.next(), None);
}

#[test]
fn non_ascii_is_literal() {
    let mut tokens = Tokenizer::new("é|λ");
    assert_eq!(tokens.next(), Some(Token::Char('é')));
    assert_eq!(tokens.next(), Some(Token::UnionBar));
    assert_eq!(tokens.next(), Some(Token::Char('λ')));
    assert_eq!(tokens.next(), None);
}

#[test]
fn collect_gives_the_rest() {
    let mut tokens = Tokenizer::new("(a.)+");
    assert_eq!(tokens.next(), Some(Token::LParen));
    assert_eq!(
        tokens.collect(),
        vec![
            Token::Char('a'),
            Token::AnyChar,
            Token::RParen,
            Token::KleenePlus
        ]
    );
    assert_eq!(tokens.next(), None);
    assert_eq!(tokens.collect(), vec![]);
}
