//! Nondeterministic automata: their states, what it means for one to be
//! ready to run, and the automaton of a pattern.

pub mod compiler;
pub mod concat;
pub mod helpers;
pub mod language;
pub mod matcher;
pub mod sample;
pub mod thompson;

use self::compiler::{compile, entry, fragment_at, size};
use self::thompson::{lemma_compiled_accepts_line, matches_within};
use crate::grammar::{generates, lemma_accepts_iff_generated};
use crate::parser::{parse_tokens, ParseError, Parser, AST};
use crate::tokenizer::{chars_of, lex, Tokenizer};
use vstd::prelude::*;

verus! {

/// A state is named by its index in the automaton's arena.
pub type StateId = usize;

/// The label of an edge that consumes a character.
#[derive(Debug, Clone, Copy, PartialEq, Eq)]
pub enum Char {
    Literal(char),
    Any,
}

/// A state of an automaton. A transition is `None` only while the automaton
/// is being built.
#[derive(Debug, Clone, Copy, PartialEq, Eq)]
pub enum State {
    /// One transition that consumes nothing.
    Start(Option<StateId>),
    /// One transition that consumes a character fitting the label.
    Match(Char, Option<StateId>),
    /// Two transitions that consume nothing.
    Split(Option<StateId>, Option<StateId>),
    /// The accepting state.
    End,
}

/// Whether the label `l` lets the character `c` pass.
pub open spec fn label_matches(l: Char, c: char) -> bool {
    match l {
        Char::Literal(x) => x == c,
        Char::Any => true,
    }
}

/// Whether every transition of `s` is bound to one of the first `n` states.
pub open spec fn resolved(s: State, n: nat) -> bool {
    match s {
        State::Start(t) => t is Some && t->0 < n,
        State::Match(_, t) => t is Some && t->0 < n,
        State::Split(a, b) => a is Some && a->0 < n && b is Some && b->0 < n,
        State::End => true,
    }
}

/// An automaton as a value: the arena of its states and where it starts.
pub struct Automaton {
    pub start: StateId,
    pub states: Seq<State>,
}

impl Automaton {
    /// The start state exists and every transition is bound to a state that
    /// exists.
    pub open spec fn wf(self) -> bool {
        &&& self.states.len() <= usize::MAX
        &&& self.start < self.states.len()
        &&& forall|q: int|
            0 <= q < self.states.len() ==> resolved(#[trigger] self.states[q], self.states.len())
    }

    /// Whether this is the automaton of `ast`: the start state, the fragment
    /// for `ast` leaving into the accepting state, and the accepting state.
    pub open spec fn compiles(self, ast: AST) -> bool {
        let n = size(ast);
        &&& self.states.len() == n + 2
        &&& n + 2 <= usize::MAX
        &&& self.start == 0
        &&& self.states[0] == State::Start(Some(entry(ast, 1) as usize))
        &&& fragment_at(self.states, ast, 1, Some((n + 1) as usize))
        &&& self.states[(n + 1) as int] == State::End
    }

    /// Whether this is the automaton of some syntax tree.
    pub open spec fn compiled(self) -> bool {
        exists|ast: AST| #[trigger] self.compiles(ast)
    }
}

/// An automaton ready to run. It is the automaton of some syntax tree, so
/// every transition of it is bound to a state of it.
#[derive(Debug)]
pub struct NFA {
    start: StateId,
    states: Vec<State>,
}

impl View for NFA {
    type V = Automaton;

    closed spec fn view(&self) -> Automaton {
        Automaton { start: self.start, states: self.states@ }
    }
}

/// Why a pattern has no automaton.
#[derive(Debug, PartialEq, Eq, Clone, Copy)]
pub enum CompileError {
    /// The pattern does not follow the grammar.
    Parse(ParseError),
}

/// Whether `r` is what compiling the pattern `pattern` gives: the automaton
/// of its syntax tree, or the reason why it has none.
pub open spec fn compiled_from(pattern: Seq<char>, r: Result<NFA, CompileError>) -> bool {
    match parse_tokens(lex(pattern)) {
        Ok(ast) => r is Ok && r->Ok_0@.compiles(ast),
        Err(e) => r is Err && r->Err_0 == CompileError::Parse(e),
    }
}

/// The automaton of a pattern: the pattern is lexed, parsed and compiled.
/// There is one exactly if the grammar generates the pattern.
pub fn compile_pattern(pattern: &str) -> (r: Result<NFA, CompileError>)
    ensures
        compiled_from(pattern@, r),
        r is Ok <==> exists|t: AST| generates(lex(pattern@), t),
{
    proof {
        lemma_accepts_iff_generated(pattern@);
    }
    match Parser::parse(Tokenizer::new(pattern)) {
        Ok(ast) => Ok(compile(&ast)),
        Err(e) => Err(CompileError::Parse(e)),
    }
}

/// Whether the automaton accepts some contiguous part of `line`, which is
/// to say that some contiguous part of `line` is a word of the syntax tree
/// that the automaton was compiled from.
pub fn matches_line(nfa: &NFA, line: &str) -> (r: bool)
    ensures
        r == nfa@.accepts_line(line@),
        forall|ast: AST| #[trigger] nfa@.compiles(ast) ==> r == matches_within(ast, line@),
{
    nfa.accepts(line)
}

impl NFA {
    #[verifier::type_invariant]
    spec fn inv(&self) -> bool {
        self@.wf() && self@.compiled()
    }

    /// Construct an automaton from a regular expression pattern. There is
    /// one exactly if the grammar generates the pattern.
    pub fn from(regular_expression: &str) -> (r: Result<NFA, CompileError>)
        ensures
            compiled_from(regular_expression@, r),
            r is Ok <==> exists|t: AST| generates(lex(regular_expression@), t),
    {
        compile_pattern(regular_expression)
    }

    /// The id of the state in which a run begins.
    pub fn start(&self) -> (id: StateId)
        ensures
            id == self@.start,
            id < self@.states.len(),
    {
        proof {
            use_type_invariant(self);
        }
        self.start
    }

    /// The states, each at the index that is its id.
    pub fn states(&self) -> (states: &Vec<State>)
        ensures
            states@ == self@.states,
            self@.wf(),
            self@.compiled(),
    {
        proof {
            use_type_invariant(self);
        }
        &self.states
    }

    /// Given an input line, run the automaton to tell whether it accepts
    /// some contiguous part of the line, which is to say that some
    /// contiguous part of the line is a word of the syntax tree that the
    /// automaton was compiled from.
    pub fn accepts(&self, input: &str) -> (r: bool)
        ensures
            r == self@.accepts_line(input@),
            forall|ast: AST| #[trigger] self@.compiles(ast) ==> r == matches_within(ast, input@),
    {
        proof {
            use_type_invariant(self);
            assert forall|ast: AST| #[trigger] self@.compiles(ast) implies self@.accepts_line(
                input@,
            ) == matches_within(ast, input@) by {
                lemma_compiled_accepts_line(self@, ast, input@);
            }
        }
        let input_chars = chars_of(input);
        let n = input_chars.len();
        let mut counter: usize = 0;
        loop
            invariant
                self@.wf(),
                input_chars@ == input@,
                n == input_chars@.len(),
                counter <= n,
                forall|i: int| 0 <= i < counter ==> !#[trigger] self@.matches_at(self@.start, input@, i),
                forall|ast: AST| #[trigger]
                    self@.compiles(ast) ==> self@.accepts_line(input@) == matches_within(ast, input@),
            decreases n - counter,
        {
            if self.traverse(&input_chars, counter, self.start) {
                return true;
            }
            if counter >= n {
                return false;
            }
            counter = counter + 1;
        }
    }
}

} // verus!
