//! Recursive-descent parsing of a token sequence into a syntax tree.
//!
//! The grammar, loosest binding first:
//!
//! ```text
//! Regex      := Catenation ( '|' Regex )?
//! Catenation := Repetition Catenation?
//! Repetition := Atom ( '*' | '+' )?
//! Atom       := '(' Regex ')' | '.' | CHAR
//! ```

use crate::grammar::{generates, lemma_parse_iff_generated};
use crate::tokenizer::{lex, Token, Tokenizer};
use vstd::prelude::*;

verus! {

/// The syntax tree of a pattern.
#[derive(Debug, PartialEq)]
pub enum AST {
    Alternation(Box<AST>, Box<AST>),
    Catenation(Box<AST>, Box<AST>),
    Closure(Box<AST>),
    AnyChar,
    Char(char),
    OneOrMore(Box<AST>),
}

/// Why a token sequence is no pattern.
#[derive(Debug, PartialEq, Eq, Clone, Copy)]
pub enum ParseError {
    /// The token `found` cannot stand where it does: at index `position`,
    /// counted from the first token that was handed to the parser.
    UnexpectedToken { found: Token, position: usize },
    /// The tokens ran out while a production was still open.
    UnexpectedEndOfInput,
}

pub fn build_alternation(left: AST, right: AST) -> (t: AST)
    ensures
        t == AST::Alternation(Box::new(left), Box::new(right)),
{
    AST::Alternation(Box::new(left), Box::new(right))
}

pub fn build_char(value: char) -> (t: AST)
    ensures
        t == AST::Char(value),
{
    AST::Char(value)
}

pub fn build_catenation(first: AST, second: AST) -> (t: AST)
    ensures
        t == AST::Catenation(Box::new(first), Box::new(second)),
{
    AST::Catenation(Box::new(first), Box::new(second))
}

pub fn build_one_or_more(ast: AST) -> (t: AST)
    ensures
        t == AST::OneOrMore(Box::new(ast)),
{
    AST::OneOrMore(Box::new(ast))
}

pub fn build_closure(closure: AST) -> (t: AST)
    ensures
        t == AST::Closure(Box::new(closure)),
{
    AST::Closure(Box::new(closure))
}

pub fn build_anychar() -> (t: AST)
    ensures
        t == AST::AnyChar,
{
    AST::AnyChar
}

/// Whether an atom can begin with `t`.
pub open spec fn starts_atom(t: Token) -> bool {
    t is LParen || t is AnyChar || t is Char
}

/// What parsing one production from index `i` gives: the tree and the index
/// of the first token behind it, or the error.
pub type Step = Result<(AST, nat), ParseError>;

/// `Atom` read from index `i` of `s`.
pub open spec fn parse_atom(s: Seq<Token>, i: nat) -> Step
    decreases s.len() - i, 0nat,
{
    if i >= s.len() {
        Err(ParseError::UnexpectedEndOfInput)
    } else {
        match s[i as int] {
            Token::AnyChar => Ok((AST::AnyChar, i + 1)),
            Token::Char(c) => Ok((AST::Char(c), i + 1)),
            Token::LParen => match parse_regex(s, i + 1) {
                Err(e) => Err(e),
                Ok((t, j)) => if j >= s.len() {
                    Err(ParseError::UnexpectedEndOfInput)
                } else if s[j as int] is RParen {
                    Ok((t, j + 1))
                } else {
                    Err(ParseError::UnexpectedToken { found: s[j as int], position: j as usize })
                },
            },
            other => Err(ParseError::UnexpectedToken { found: other, position: i as usize }),
        }
    }
}

/// `Repetition` read from index `i` of `s`.
pub open spec fn parse_repetition(s: Seq<Token>, i: nat) -> Step
    decreases s.len() - i, 1nat,
{
    match parse_atom(s, i) {
        Err(e) => Err(e),
        Ok((t, j)) => if j < s.len() && s[j as int] is KleeneStar {
            Ok((AST::Closure(Box::new(t)), j + 1))
        } else if j < s.len() && s[j as int] is KleenePlus {
            Ok((AST::OneOrMore(Box::new(t)), j + 1))
        } else {
            Ok((t, j))
        },
    }
}

/// `Catenation` read from index `i` of `s`: repetitions are chained for as
/// long as the next token can begin an atom.
pub open spec fn parse_catenation(s: Seq<Token>, i: nat) -> Step
    decreases s.len() - i, 2nat,
{
    match parse_repetition(s, i) {
        Err(e) => Err(e),
        Ok((t, j)) => if i < j && j < s.len() && starts_atom(s[j as int]) {
            match parse_catenation(s, j) {
                Err(e) => Err(e),
                Ok((r, k)) => Ok((AST::Catenation(Box::new(t), Box::new(r)), k)),
            }
        } else {
            Ok((t, j))
        },
    }
}

/// `Regex` read from index `i` of `s`: a bar makes everything behind it, up
/// to the end of the group, the right-hand side.
pub open spec fn parse_regex(s: Seq<Token>, i: nat) -> Step
    decreases s.len() - i, 3nat,
{
    match parse_catenation(s, i) {
        Err(e) => Err(e),
        Ok((t, j)) => if i < j && j < s.len() && s[j as int] is UnionBar {
            match parse_regex(s, j + 1) {
                Err(e) => Err(e),
                Ok((r, k)) => Ok((AST::Alternation(Box::new(t), Box::new(r)), k)),
            }
        } else {
            Ok((t, j))
        },
    }
}

/// The tree of the whole sequence `s`: one `Regex` with nothing behind it.
pub open spec fn parse_tokens(s: Seq<Token>) -> Result<AST, ParseError> {
    match parse_regex(s, 0) {
        Err(e) => Err(e),
        Ok((t, j)) => if j < s.len() {
            Err(ParseError::UnexpectedToken { found: s[j as int], position: j as usize })
        } else {
            Ok(t)
        },
    }
}

/// The production read at a given level: 0 an atom, 1 a repetition, 2 a
/// catenation, anything else a regex.
pub open spec fn parse_level(s: Seq<Token>, i: nat, level: nat) -> Step {
    if level == 0 {
        parse_atom(s, i)
    } else if level == 1 {
        parse_repetition(s, i)
    } else if level == 2 {
        parse_catenation(s, i)
    } else {
        parse_regex(s, i)
    }
}

/// A production that succeeds consumes at least one token and ends inside
/// the sequence.
pub proof fn lemma_parse_advances(s: Seq<Token>, i: nat, level: nat)
    ensures
        match parse_level(s, i, level) {
            Ok((_, j)) => i < j <= s.len(),
            Err(_) => true,
        },
    decreases s.len() - i, level,
{
    if level == 0 {
        if i < s.len() && s[i as int] is LParen {
            lemma_parse_advances(s, i + 1, 3);
        }
    } else if level == 1 {
        lemma_parse_advances(s, i, 0);
    } else if level == 2 {
        lemma_parse_advances(s, i, 1);
        match parse_repetition(s, i) {
            Ok((_, j)) => {
                if j < s.len() && starts_atom(s[j as int]) {
                    lemma_parse_advances(s, j, 2);
                }
            },
            Err(_) => {},
        }
    } else {
        lemma_parse_advances(s, i, 2);
        match parse_catenation(s, i) {
            Ok((_, j)) => {
                if j < s.len() && s[j as int] is UnionBar {
                    lemma_parse_advances(s, j + 1, 3);
                }
            },
            Err(_) => {},
        }
    }
}

/// A cursor over the tokens of a pattern.
pub struct Parser {
    tokens: Vec<Token>,
    pos: usize,
}

impl Parser {
    /// Parses everything `tokenizer` has left as one pattern. Whatever is left
    /// behind a complete pattern is an error. The result is a tree exactly
    /// if the grammar generates the tokens, and then it is the tree that the
    /// grammar gives them.
    pub fn parse(tokenizer: Tokenizer) -> (r: Result<AST, ParseError>)
        ensures
            r == parse_tokens(lex(tokenizer@)),
            forall|t: AST| r == Ok::<AST, ParseError>(t) <==> #[trigger] generates(lex(tokenizer@), t),
    {
        proof {
            assert forall|t: AST|
                parse_tokens(lex(tokenizer@)) == Ok::<AST, ParseError>(t) <==> #[trigger] generates(
                    lex(tokenizer@),
                    t,
                ) by {
                lemma_parse_iff_generated(lex(tokenizer@), t);
            }
        }
        let mut tokenizer = tokenizer;
        let tokens = tokenizer.collect();
        let mut parser = Parser { tokens, pos: 0 };
        let res = parser.regexpr();
        match res {
            Err(e) => Err(e),
            Ok(t) => {
                if parser.pos < parser.tokens.len() {
                    Err(
                        ParseError::UnexpectedToken {
                            found: parser.tokens[parser.pos],
                            position: parser.pos,
                        },
                    )
                } else {
                    Ok(t)
                }
            },
        }
    }

    /// The cursor lies inside the tokens or just behind them.
    spec fn wf(&self) -> bool {
        self.pos <= self.tokens@.len()
    }

    /// `self` is `before` moved on as `expected` says, and `r` is its tree or
    /// its error.
    spec fn moved(&self, before: &Parser, r: Result<AST, ParseError>, expected: Step) -> bool {
        &&& self.wf()
        &&& self.tokens@ == before.tokens@
        &&& match expected {
            Ok((t, j)) => r == Ok::<AST, ParseError>(t) && self.pos == j,
            Err(e) => r == Err::<AST, ParseError>(e),
        }
    }

    /// Reads a `Regex`.
    fn regexpr(&mut self) -> (r: Result<AST, ParseError>)
        requires
            old(self).wf(),
        ensures
            final(self).moved(old(self), r, parse_regex(old(self).tokens@, old(self).pos as nat)),
        decreases old(self).tokens@.len() - old(self).pos, 5nat,
    {
        self.maybe_regex()
    }

    /// Reads an `Atom`: a group, the dot or a character.
    fn atom(&mut self) -> (r: Result<AST, ParseError>)
        requires
            old(self).wf(),
        ensures
            final(self).moved(old(self), r, parse_atom(old(self).tokens@, old(self).pos as nat)),
        decreases old(self).tokens@.len() - old(self).pos, 1nat,
    {
        let at = self.pos;
        let t = match self.take_next_token() {
            Ok(t) => t,
            Err(e) => {
                return Err(e);
            },
        };
        match t {
            Token::AnyChar => Ok(build_anychar()),
            Token::LParen => {
                let x = match self.regexpr() {
                    Ok(x) => x,
                    Err(e) => {
                        return Err(e);
                    },
                };
                match self.consume_token(Token::RParen) {
                    Ok(_) => Ok(x),
                    Err(e) => Err(e),
                }
            },
            Token::Char(c) => Ok(build_char(c)),
            _ => Err(ParseError::UnexpectedToken { found: t, position: at }),
        }
    }

    /// Reads a `Repetition`: an atom and the star or the plus that may
    /// follow it.
    fn closure(&mut self) -> (r: Result<AST, ParseError>)
        requires
            old(self).wf(),
        ensures
            final(self).moved(
                old(self),
                r,
                parse_repetition(old(self).tokens@, old(self).pos as nat),
            ),
        decreases old(self).tokens@.len() - old(self).pos, 2nat,
    {
        let first_term = match self.atom() {
            Ok(t) => t,
            Err(e) => {
                return Err(e);
            },
        };
        if self.peek_kleene_star().is_some() {
            let _ = self.take_next_token();
            return Ok(build_closure(first_term));
        }
        if self.peek_kleene_plus().is_some() {
            let _ = self.take_next_token();
            return Ok(build_one_or_more(first_term));
        }
        Ok(first_term)
    }

    /// Reads a `Catenation`: a repetition and the catenation that may
    /// follow it.
    fn cat(&mut self) -> (r: Result<AST, ParseError>)
        requires
            old(self).wf(),
        ensures
            final(self).moved(
                old(self),
                r,
                parse_catenation(old(self).tokens@, old(self).pos as nat),
            ),
        decreases old(self).tokens@.len() - old(self).pos, 3nat,
    {
        let first_term = match self.closure() {
            Ok(t) => t,
            Err(e) => {
                return Err(e);
            },
        };
        proof {
            lemma_parse_advances(self.tokens@, old(self).pos as nat, 1);
        }
        match self.maybe_cat() {
            Ok(Some(second_term)) => Ok(build_catenation(first_term, second_term)),
            Ok(None) => Ok(first_term),
            Err(e) => Err(e),
        }
    }

    /// A catenation, if the next token can begin one; `None`, with nothing
    /// consumed, if it cannot.
    fn maybe_cat(&mut self) -> (r: Result<Option<AST>, ParseError>)
        requires
            old(self).wf(),
        ensures
            final(self).wf(),
            final(self).tokens@ == old(self).tokens@,
            old(self).pos < old(self).tokens@.len() && starts_atom(
                old(self).tokens@[old(self).pos as int],
            ) ==> match parse_catenation(old(self).tokens@, old(self).pos as nat) {
                Ok((t, j)) => r == Ok::<Option<AST>, ParseError>(Some(t)) && final(self).pos == j,
                Err(e) => r == Err::<Option<AST>, ParseError>(e),
            },
            !(old(self).pos < old(self).tokens@.len() && starts_atom(
                old(self).tokens@[old(self).pos as int],
            )) ==> r == Ok::<Option<AST>, ParseError>(None) && final(self).pos == old(self).pos,
        decreases old(self).tokens@.len() - old(self).pos, 4nat,
    {
        if self.pos >= self.tokens.len() {
            return Ok(None);
        }
        match self.tokens[self.pos] {
            Token::LParen | Token::AnyChar | Token::Char(_) => match self.cat() {
                Ok(t) => Ok(Some(t)),
                Err(e) => Err(e),
            },
            _ => Ok(None),
        }
    }

    /// Reads a catenation and, behind a bar, the `Regex` that is the other
    /// side of an alternation.
    fn maybe_regex(&mut self) -> (r: Result<AST, ParseError>)
        requires
            old(self).wf(),
        ensures
            final(self).moved(old(self), r, parse_regex(old(self).tokens@, old(self).pos as nat)),
        decreases old(self).tokens@.len() - old(self).pos, 4nat,
    {
        let lhs = match self.cat() {
            Ok(t) => t,
            Err(e) => {
                return Err(e);
            },
        };
        proof {
            lemma_parse_advances(self.tokens@, old(self).pos as nat, 2);
        }
        if self.peek_union_bar().is_some() {
            let _ = self.take_next_token();
            let rhs = match self.regexpr() {
                Ok(t) => t,
                Err(e) => {
                    return Err(e);
                },
            };
            return Ok(build_alternation(lhs, rhs));
        }
        Ok(lhs)
    }

    /// Consumes the next token and returns it.
    fn take_next_token(&mut self) -> (r: Result<Token, ParseError>)
        requires
            old(self).wf(),
        ensures
            final(self).wf(),
            final(self).tokens@ == old(self).tokens@,
            old(self).pos < old(self).tokens@.len() ==> r == Ok::<Token, ParseError>(
                old(self).tokens@[old(self).pos as int],
            ) && final(self).pos == old(self).pos + 1,
            old(self).pos >= old(self).tokens@.len() ==> r == Err::<Token, ParseError>(
                ParseError::UnexpectedEndOfInput,
            ) && final(self).pos == old(self).pos,
    {
        if self.pos < self.tokens.len() {
            let t = self.tokens[self.pos];
            self.pos = self.pos + 1;
            Ok(t)
        } else {
            Err(ParseError::UnexpectedEndOfInput)
        }
    }

    /// Consumes the next token, which has to be `expected`.
    fn consume_token(&mut self, expected: Token) -> (r: Result<Token, ParseError>)
        requires
            old(self).wf(),
        ensures
            final(self).wf(),
            final(self).tokens@ == old(self).tokens@,
            old(self).pos >= old(self).tokens@.len() ==> r == Err::<Token, ParseError>(
                ParseError::UnexpectedEndOfInput,
            ),
            old(self).pos < old(self).tokens@.len() ==> {
                let next = old(self).tokens@[old(self).pos as int];
                if next == expected {
                    r == Ok::<Token, ParseError>(next) && final(self).pos == old(self).pos + 1
                } else {
                    r == Err::<Token, ParseError>(
                        ParseError::UnexpectedToken { found: next, position: old(self).pos },
                    )
                }
            },
    {
        let at = self.pos;
        match self.take_next_token() {
            Ok(next) => {
                if next != expected {
                    Err(ParseError::UnexpectedToken { found: next, position: at })
                } else {
                    Ok(next)
                }
            },
            Err(e) => Err(e),
        }
    }

    /// `Some('*')` if the next token is a star.
    fn peek_kleene_star(&self) -> (r: Option<char>)
        requires
            self.wf(),
        ensures
            r == if self.pos < self.tokens@.len() && self.tokens@[self.pos as int] is KleeneStar {
                Some('*')
            } else {
                None
            },
    {
        if self.pos < self.tokens.len() {
            match self.tokens[self.pos] {
                Token::KleeneStar => Some('*'),
                _ => None,
            }
        } else {
            None
        }
    }

    /// `Some('+')` if the next token is a plus.
    fn peek_kleene_plus(&self) -> (r: Option<char>)
        requires
            self.wf(),
        ensures
            r == if self.pos < self.tokens@.len() && self.tokens@[self.pos as int] is KleenePlus {
                Some('+')
            } else {
                None
            },
    {
        if self.pos < self.tokens.len() {
            match self.tokens[self.pos] {
                Token::KleenePlus => Some('+'),
                _ => None,
            }
        } else {
            None
        }
    }

    /// `Some('|')` if the next token is a bar.
    fn peek_union_bar(&self) -> (r: Option<char>)
        requires
            self.wf(),
        ensures
            r == if self.pos < self.tokens@.len() && self.tokens@[self.pos as int] is UnionBar {
                Some('|')
            } else {
                None
            },
    {
        if self.pos < self.tokens.len() {
            match self.tokens[self.pos] {
                Token::UnionBar => Some('|'),
                _ => None,
            }
        } else {
            None
        }
    }
}

} // verus!
