use thegrep::parser::{
    build_alternation, build_anychar, build_catenation, build_char, build_closure,
    build_one_or_more, ParseError, Parser, AST,
};
use thegrep::tokenizer::{Token, Tokenizer};

#[test]
fn parse_char() {
    let res = Parser::parse(Tokenizer::new("a")).unwrap();
    assert_eq!(AST::Char('a'), res);
}

#[test]
fn parse_cat() {
    let res = Parser::parse(Tokenizer::new("ab")).unwrap();
    assert_eq!(
        AST::Catenation(Box::new(AST::Char('a')), Box::new(AST::Char('b'))),
        res
    );
}

#[test]
fn parse_alt() {
    let res = Parser::parse(Tokenizer::new("a|b")).unwrap();
    assert_eq!(
        AST::Alternation(Box::new(AST::Char('a')), Box::new(AST::Char('b'))),
        res
    );
}

#[test]
fn parse_closure() {
    let res = Parser::parse(Tokenizer::new("a*")).unwrap();
    assert_eq!(AST::Closure(Box::new(AST::Char('a'))), res);
}

#[test]
fn parse_anychar() {
    let res = Parser::parse(Tokenizer::new(".")).unwrap();
    assert_eq!(AST::AnyChar, res);
}

#[test]
fn parse1() {
    let res = Parser::parse(Tokenizer::new("a.*")).unwrap();
    assert_eq!(
        AST::Catenation(
            Box::new(AST::Char('a')),
            Box::new(AST::Closure(Box::new(AST::AnyChar)))
        ),
        res
    );
}

#[test]
fn parse2() {
    let res = Parser::parse(Tokenizer::new("a|b|c")).unwrap();
    assert_eq!(
        AST::Alternation(
            Box::new(AST::Char('a')),
            Box::new(AST::Alternation(
                Box::new(AST::Char('b')),
                Box::new(AST::Char('c'))
            ))
        ),
        res
    );
}

#[test]
fn parse3() {
    let res = Parser::parse(Tokenizer::new("(ab)*")).unwrap();
    assert_eq!(
        AST::Closure(Box::new(AST::Catenation(
            Box::new(AST::Char('a')),
            Box::new(AST::Char('b'))
        ))),
        res
    );
}

#[test]
fn parse_one_or_more() {
    let res = Parser::parse(Tokenizer::new("a+")).unwrap();
    assert_eq!(AST::OneOrMore(Box::new(AST::Char('a'))), res);
}

#[test]
fn parse_nested_groups() {
    let res = Parser::parse(Tokenizer::new("b(oo*|a)m")).unwrap();
    let inner = build_alternation(
        build_catenation(build_char('o'), build_closure(build_char('o'))),
        build_char('a'),
    );
    assert_eq!(
        build_catenation(build_char('b'), build_catenation(inner, build_char('m'))),
        res
    );
}

#[test]
fn parse_catenation_binds_tighter_than_bar() {
    let res = Parser::parse(Tokenizer::new("ab|c.+")).unwrap();
    assert_eq!(
        build_alternation(
            build_catenation(build_char('a'), build_char('b')),
            build_catenation(build_char('c'), build_one_or_more(build_anychar())),
        ),
        res
    );
}

#[test]
fn parse_blank_is_a_character() {
    let res = Parser::parse(Tokenizer::new("a b")).unwrap();
    assert_eq!(
        build_catenation(
            build_char('a'),
            build_catenation(build_char(' '), build_char('b'))
        ),
        res
    );
}

#[test]
fn parse_twice_gives_equal_trees() {
    let first = Parser::parse(Tokenizer::new("(a|b)*c+."));
    let second = Parser::parse(Tokenizer::new("(a|b)*c+."));
    assert!(first.is_ok());
    assert_eq!(first, second);
    let bad_first = Parser::parse(Tokenizer::new("(a|b"));
    let bad_second = Parser::parse(Tokenizer::new("(a|b"));
    assert_eq!(bad_first, bad_second);
}

#[test]
fn parse_started_tokenizer_takes_the_rest() {
    let mut tokens = Tokenizer::new(")ab");
    assert_eq!(tokens.next(), Some(Token::RParen));
    assert_eq!(
        Parser::parse(tokens),
        Ok(build_catenation(build_char('a'), build_char('b')))
    );
}

#[test]
fn parse_empty_is_end_of_input() {
    assert_eq!(
        Parser::parse(Tokenizer::new("")),
        Err(ParseError::UnexpectedEndOfInput)
    );
}

#[test]
fn parse_unbalanced_left_paren() {
    assert_eq!(
        Parser::parse(Tokenizer::new("(a")),
        Err(ParseError::UnexpectedEndOfInput)
    );
    assert_eq!(
        Parser::parse(Tokenizer::new("a(b")),
        Err(ParseError::UnexpectedEndOfInput)
    );
}

#[test]
fn parse_dangling_bar() {
    assert_eq!(
        Parser::parse(Tokenizer::new("a|")),
        Err(ParseError::UnexpectedEndOfInput)
    );
}

#[test]
fn parse_unbalanced_right_paren() {
    assert_eq!(
        Parser::parse(Tokenizer::new("a)")),
        Err(ParseError::UnexpectedToken {
            found: Token::RParen,
            position: 1
        })
    );
    assert_eq!(
        Parser::parse(Tokenizer::new("()")),
        Err(ParseError::UnexpectedToken {
            found: Token::RParen,
            position: 1
        })
    );
}

#[test]
fn parse_misplaced_operators() {
    assert_eq!(
        Parser::parse(Tokenizer::new("*a")),
        Err(ParseError::UnexpectedToken {
            found: Token::KleeneStar,
            position: 0
        })
    );
    assert_eq!(
        Parser::parse(Tokenizer::new("a**")),
        Err(ParseError::UnexpectedToken {
            found: Token::KleeneStar,
            position: 2
        })
    );
    assert_eq!(
        Parser::parse(Tokenizer::new("a*+")),
        Err(ParseError::UnexpectedToken {
            found: Token::KleenePlus,
            position: 2
        })
    );
    assert_eq!(
        Parser::parse(Tokenizer::new("a||b")),
        Err(ParseError::UnexpectedToken {
            found: Token::UnionBar,
            position: 2
        })
    );
    assert_eq!(
        Parser::parse(Tokenizer::new("(a**")),
        Err(ParseError::UnexpectedToken {
            found: Token::KleeneStar,
            position: 3
        })
    );
}

#[test]
fn builders_make_the_variants() {
    assert_eq!(build_char('x'), AST::Char('x'));
    assert_eq!(build_anychar(), AST::AnyChar);
    assert_eq!(
        build_closure(AST::AnyChar),
        AST::Closure(Box::new(AST::AnyChar))
    );
    assert_eq!(
        build_one_or_more(AST::AnyChar),
        AST::OneOrMore(Box::new(AST::AnyChar))
    );
    assert_eq!(
        build_catenation(AST::Char('a'), AST::AnyChar),
        AST::Catenation(Box::new(AST::Char('a')), Box::new(AST::AnyChar))
    );
    assert_eq!(
        build_alternation(AST::Char('a'), AST::AnyChar),
        AST::Alternation(Box::new(AST::Char('a')), Box::new(AST::AnyChar))
    );
}
