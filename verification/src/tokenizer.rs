//! Lexical analysis: one token per character of the pattern.

use vstd::prelude::*;

verus! {

/// The kinds of token a pattern is made of.
#[derive(Debug, PartialEq, Eq, Structural, Clone, Copy)]
pub enum Token {
    Char(char),
    UnionBar,
    AnyChar,
    KleeneStar,
    KleenePlus,
    LParen,
    RParen,
}

/// The token that a single character of a pattern stands for. Every
/// character is a token: whatever is no operator is a literal, blanks
/// included.
pub open spec fn token_of(c: char) -> Token {
    if c == '|' {
        Token::UnionBar
    } else if c == '*' {
        Token::KleeneStar
    } else if c == '+' {
        Token::KleenePlus
    } else if c == '.' {
        Token::AnyChar
    } else if c == '(' {
        Token::LParen
    } else if c == ')' {
        Token::RParen
    } else {
        Token::Char(c)
    }
}

/// The token sequence of a whole pattern.
pub open spec fn lex(pattern: Seq<char>) -> Seq<Token> {
    Seq::new(pattern.len(), |i: int| token_of(pattern[i]))
}

/// The characters of `s`, in order.
pub fn chars_of(s: &str) -> (out: Vec<char>)
    ensures
        out@ == s@,
{
    let mut out: Vec<char> = Vec::new();
    for c in it: s.chars()
        invariant
            it.seq() == s@,
            out@ == s@.take(it.index() as int),
    {
        out.push(c);
    }
    out
}

/// A cursor over the characters of a pattern that hands out one token per
/// call. Its view is the part of the pattern not yet consumed.
pub struct Tokenizer {
    chars: Vec<char>,
    pos: usize,
}

impl View for Tokenizer {
    type V = Seq<char>;

    closed spec fn view(&self) -> Seq<char> {
        self.chars@.skip(self.pos as int)
    }
}

impl Tokenizer {
    #[verifier::type_invariant]
    spec fn inv(&self) -> bool {
        self.pos <= self.chars@.len()
    }

    /// A tokenizer at the beginning of `input`.
    pub fn new(input: &str) -> (t: Tokenizer)
        ensures
            t@ == input@,
    {
        let chars = chars_of(input);
        Tokenizer { chars, pos: 0 }
    }

    /// The next token, or `None` once the pattern is exhausted. A call
    /// consumes exactly one character.
    pub fn next(&mut self) -> (t: Option<Token>)
        ensures
            old(self)@.len() == 0 ==> t.is_none() && final(self)@ == old(self)@,
            old(self)@.len() > 0 ==> t == Some(token_of(old(self)@[0])) && final(self)@ == old(
                self,
            )@.skip(1),
    {
        proof {
            use_type_invariant(&*self);
        }
        if self.pos >= self.chars.len() {
            return None;
        }
        let c = self.chars[self.pos];
        let t = if c == '|' {
            self.lex_union_bar()
        } else if c == '*' {
            self.lex_kleene_star()
        } else if c == '+' {
            self.lex_kleene_plus()
        } else if c == '.' {
            self.lex_any_char()
        } else if c == '(' || c == ')' {
            self.lex_paren()
        } else {
            self.lex_char()
        };
        Some(t)
    }

    /// All the tokens that are left, in order; the tokenizer ends exhausted.
    pub fn collect(&mut self) -> (out: Vec<Token>)
        ensures
            out@ == lex(old(self)@),
            final(self)@.len() == 0,
    {
        let mut out: Vec<Token> = Vec::new();
        loop
            invariant
                out@ + lex(self@) == lex(old(self)@),
            ensures
                out@ == lex(old(self)@),
                self@.len() == 0,
            decreases self@.len(),
        {
            let ghost before = self@;
            match self.next() {
                Some(t) => {
                    let ghost prev = out@;
                    out.push(t);
                    assert(out@ + lex(self@) =~= prev + lex(before));
                },
                None => {
                    assert(out@ + lex(self@) =~= out@);
                    break;
                },
            }
        }
        out
    }

    /// The character under the cursor.
    spec fn head(&self) -> char
        recommends
            self@.len() > 0,
    {
        self@[0]
    }

    /// Consumes the character under the cursor and returns it.
    fn advance(&mut self) -> (c: char)
        requires
            old(self)@.len() > 0,
        ensures
            c == old(self).head(),
            final(self)@ == old(self)@.skip(1),
    {
        proof {
            use_type_invariant(&*self);
        }
        let n = self.chars.len();
        assert(self.pos < n);
        let c = self.chars[self.pos];
        self.pos = self.pos + 1;
        assert(self@ =~= old(self)@.skip(1));
        c
    }

    /// Consumes a `|`.
    fn lex_union_bar(&mut self) -> (t: Token)
        requires
            old(self)@.len() > 0,
            old(self).head() == '|',
        ensures
            t == Token::UnionBar,
            final(self)@ == old(self)@.skip(1),
    {
        let _ = self.advance();
        Token::UnionBar
    }

    /// Consumes a `*`.
    fn lex_kleene_star(&mut self) -> (t: Token)
        requires
            old(self)@.len() > 0,
            old(self).head() == '*',
        ensures
            t == Token::KleeneStar,
            final(self)@ == old(self)@.skip(1),
    {
        let _ = self.advance();
        Token::KleeneStar
    }

    /// Consumes a `+`.
    fn lex_kleene_plus(&mut self) -> (t: Token)
        requires
            old(self)@.len() > 0,
            old(self).head() == '+',
        ensures
            t == Token::KleenePlus,
            final(self)@ == old(self)@.skip(1),
    {
        let _ = self.advance();
        Token::KleenePlus
    }

    /// Consumes a parenthesis and tells which one it was.
    fn lex_paren(&mut self) -> (t: Token)
        requires
            old(self)@.len() > 0,
            old(self).head() == '(' || old(self).head() == ')',
        ensures
            t == token_of(old(self).head()),
            final(self)@ == old(self)@.skip(1),
    {
        let c = self.advance();
        if c == '(' {
            Token::LParen
        } else {
            Token::RParen
        }
    }

    /// Consumes a character that is no operator.
    fn lex_char(&mut self) -> (t: Token)
        requires
            old(self)@.len() > 0,
            token_of(old(self).head()) == Token::Char(old(self).head()),
        ensures
            t == Token::Char(old(self).head()),
            final(self)@ == old(self)@.skip(1),
    {
        let c = self.advance();
        Token::Char(c)
    }

    /// Consumes a `.`.
    fn lex_any_char(&mut self) -> (t: Token)
        requires
            old(self)@.len() > 0,
            old(self).head() == '.',
        ensures
            t == Token::AnyChar,
            final(self)@ == old(self)@.skip(1),
    {
        let _ = self.advance();
        Token::AnyChar
    }
}

} // verus!
