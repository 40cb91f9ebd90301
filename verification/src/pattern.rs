//! Patterns from end to end: what lexing, parsing, compiling and matching
//! give when taken together.

use crate::grammar::{generates, lemma_accepts_iff_generated};
use crate::nfa::thompson::{
    is_words, lemma_compiled_accepts_line, lemma_empty_word_matches_every_line, matches_within,
};
use crate::nfa::{compiled_from, CompileError, NFA};
use crate::parser::{parse_tokens, ParseError, AST};
use crate::tokenizer::lex;
use vstd::prelude::*;

verus! {

/// A pattern has an automaton if and only if the grammar generates it; if
/// it has none, the reason is the parser's.
pub proof fn lemma_compiles_iff_generated(pattern: Seq<char>, r: Result<NFA, CompileError>)
    requires
        compiled_from(pattern, r),
    ensures
        r is Ok <==> exists|t: AST| generates(lex(pattern), t),
        r is Err ==> parse_tokens(lex(pattern)) == Err::<AST, ParseError>(r->Err_0->Parse_0),
{
    lemma_accepts_iff_generated(pattern);
}

/// The automaton of a pattern accepts a line exactly if some contiguous
/// part of the line is a word of the pattern's syntax tree.
pub proof fn lemma_pattern_accepts_line(
    pattern: Seq<char>,
    r: Result<NFA, CompileError>,
    line: Seq<char>,
)
    requires
        compiled_from(pattern, r),
        r is Ok,
    ensures
        parse_tokens(lex(pattern)) is Ok,
        r->Ok_0@.accepts_line(line) <==> matches_within(parse_tokens(lex(pattern))->Ok_0, line),
{
    lemma_compiled_accepts_line(r->Ok_0@, parse_tokens(lex(pattern))->Ok_0, line);
}

/// The pattern `.*` parses to the closure of the dot.
pub proof fn lemma_dot_star_tree()
    ensures
        parse_tokens(lex(".*"@)) == Ok::<AST, ParseError>(AST::Closure(Box::new(AST::AnyChar))),
{
    reveal_strlit(".*");
    let s = lex(".*"@);
    assert(s.len() == 2);
    assert(s[0] == crate::tokenizer::Token::AnyChar);
    assert(s[1] == crate::tokenizer::Token::KleeneStar);
    assert(crate::parser::parse_atom(s, 0) == Ok::<(AST, nat), ParseError>((AST::AnyChar, 1)));
    assert(crate::parser::parse_repetition(s, 0) == Ok::<(AST, nat), ParseError>(
        (AST::Closure(Box::new(AST::AnyChar)), 2),
    ));
    assert(crate::parser::parse_catenation(s, 0) == Ok::<(AST, nat), ParseError>(
        (AST::Closure(Box::new(AST::AnyChar)), 2),
    ));
    assert(crate::parser::parse_regex(s, 0) == Ok::<(AST, nat), ParseError>(
        (AST::Closure(Box::new(AST::AnyChar)), 2),
    ));
}

/// The automaton of the pattern `.*` accepts every line, the empty line
/// included.
pub proof fn lemma_dot_star_accepts_every_line(
    r: Result<NFA, CompileError>,
    line: Seq<char>,
)
    requires
        compiled_from(".*"@, r),
    ensures
        r is Ok,
        r->Ok_0@.accepts_line(line),
{
    lemma_dot_star_tree();
    let ast = AST::Closure(Box::new(AST::AnyChar));
    assert(is_words(AST::AnyChar, Seq::<char>::empty()));
    lemma_empty_word_matches_every_line(r->Ok_0@, ast, line);
}

} // verus!
