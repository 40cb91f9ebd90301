//! A line-oriented pattern matcher: a pattern is lexed, parsed into a syntax
//! tree, compiled into a nondeterministic automaton and run against lines.

pub mod grammar;
pub mod nfa;
pub mod parser;
pub mod pattern;
pub mod text;
pub mod tokenizer;
