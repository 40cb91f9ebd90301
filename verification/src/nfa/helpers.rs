//! Text views of an automaton: a listing of its states, and a graph
//! description with a node per state and an edge per transition.

use super::{Automaton, Char, State, NFA};
use crate::text::{decimal, decimal_padded, push_char, push_decimal, push_decimal_padded};
use vstd::prelude::*;
use vstd::string::StringExecFns;

verus! {

/// What `{:?}` prints for a state.
pub uninterp spec fn state_debug(state: State) -> Seq<char>;

/// `format!` with `{:?}`: the text that the derived `Debug` of a state
/// prints, which depends on the state alone.
#[verifier::external_body]
fn debug_state(state: &State) -> (text: String)
    ensures
        text@ == state_debug(*state),
{
    format!("{:?}", state)
}

/// The text that labels an edge: the character itself, or `ANY`.
pub open spec fn label_text(label: Char) -> Seq<char> {
    match label {
        Char::Literal(c) => seq![c],
        Char::Any => "ANY"@,
    }
}

impl Char {
    /// The text that labels an edge: the character itself, or `ANY`.
    pub fn label(&self) -> (text: String)
        ensures
            text@ == label_text(*self),
    {
        let mut text = String::new();
        match self {
            Char::Literal(c) => {
                push_char(&mut text, *c);
                assert(text@ =~= seq![*c]);
            },
            Char::Any => {
                text.append("ANY");
                assert(text@ =~= "ANY"@);
            },
        }
        text
    }
}

/// A line of the listing: the id `id`, in at least three digits, a bar and
/// the text `shown`.
pub open spec fn listed(id: nat, shown: Seq<char>) -> Seq<char> {
    decimal_padded(id) + " | "@ + shown + "\n"@
}

/// The line of the listing for the state `state` with id `id`.
pub open spec fn dump_line(id: nat, state: State) -> Seq<char> {
    listed(id, state_debug(state))
}

/// Appends to `out` the line of a listing for the id `id` and the text
/// `shown`.
pub fn push_listed(out: &mut String, id: usize, shown: &str)
    ensures
        final(out)@ == old(out)@ + listed(id as nat, shown@),
{
    push_decimal_padded(out, id);
    out.append(" | ");
    out.append(shown);
    out.append("\n");
    assert(out@ =~= old(out)@ + listed(id as nat, shown@));
}

/// The lines of the listing for the first `upto` states.
pub open spec fn dump_lines(states: Seq<State>, upto: nat) -> Seq<char>
    decreases upto,
{
    if upto == 0 {
        Seq::empty()
    } else {
        dump_lines(states, (upto - 1) as nat) + dump_line(
            (upto - 1) as nat,
            states[upto - 1],
        )
    }
}

/// What the graph description says of the state `state` with id `id`: its
/// edges, or that it is the accepting node.
pub open spec fn dot_state(id: nat, state: State) -> Seq<char> {
    match state {
        State::Start(Some(next)) => "\tstart [shape=\"none\"]\n\tstart -> "@ + decimal(
            next as nat,
        ) + "\n"@,
        State::Match(c, Some(next)) => "\t"@ + decimal(id) + " -> "@ + decimal(next as nat)
            + " [label=\""@ + label_text(c) + "\"]\n"@,
        State::Split(Some(lhs), Some(rhs)) => "\t"@ + decimal(id) + " -> "@ + decimal(rhs as nat)
            + " [label=\"ε\"]\n\t"@ + decimal(id) + " -> "@ + decimal(lhs as nat)
            + " [label=\"ε\"]\n"@,
        State::End => "\t"@ + decimal(id) + " [shape=\"doublecircle\"]\n"@,
        _ => Seq::empty(),
    }
}

/// What the graph description says of the first `upto` states.
pub open spec fn dot_states(states: Seq<State>, upto: nat) -> Seq<char>
    decreases upto,
{
    if upto == 0 {
        Seq::empty()
    } else {
        dot_states(states, (upto - 1) as nat) + dot_state((upto - 1) as nat, states[upto - 1])
    }
}

/// The graph description of an automaton.
pub open spec fn dot_text(a: Automaton) -> Seq<char> {
    "digraph nfa {\n\tnode [shape = circle];\n"@ + dot_states(a.states, a.states.len()) + "}"@
}

/// Generate a string of the internal structure of the automaton: one line
/// per state, with its id and the state as `{:?}` prints it.
pub fn nfa_dump(nfa: &NFA) -> (s: String)
    ensures
        s@ == dump_lines(nfa@.states, nfa@.states.len()),
{
    let states = nfa.states();
    let mut s = String::new();
    let mut id: usize = 0;
    while id < states.len()
        invariant
            id <= states@.len(),
            states@ == nfa@.states,
            s@ == dump_lines(states@, id as nat),
        decreases states@.len() - id,
    {
        let shown = debug_state(&states[id]);
        push_listed(&mut s, id, shown.as_str());
        id = id + 1;
    }
    s
}

/// Generate the graph description of the automaton.
pub fn nfa_dot(nfa: &NFA) -> (dot: String)
    ensures
        dot@ == dot_text(nfa@),
{
    let states = nfa.states();
    let mut dot = String::new();
    dot.append("digraph nfa {\n\tnode [shape = circle];\n");
    let ghost head = dot@;
    let mut id: usize = 0;
    while id < states.len()
        invariant
            id <= states@.len(),
            states@ == nfa@.states,
            head == "digraph nfa {\n\tnode [shape = circle];\n"@,
            dot@ == head + dot_states(states@, id as nat),
        decreases states@.len() - id,
    {
        let ghost before = dot@;
        match states[id] {
            State::Start(Some(next)) => {
                dot.append("\tstart [shape=\"none\"]\n\tstart -> ");
                push_decimal(&mut dot, next);
                dot.append("\n");
            },
            State::Match(c, Some(next)) => {
                dot.append("\t");
                push_decimal(&mut dot, id);
                dot.append(" -> ");
                push_decimal(&mut dot, next);
                dot.append(" [label=\"");
                let label = c.label();
                dot.append(label.as_str());
                dot.append("\"]\n");
            },
            State::Split(Some(lhs), Some(rhs)) => {
                dot.append("\t");
                push_decimal(&mut dot, id);
                dot.append(" -> ");
                push_decimal(&mut dot, rhs);
                dot.append(" [label=\"ε\"]\n\t");
                push_decimal(&mut dot, id);
                dot.append(" -> ");
                push_decimal(&mut dot, lhs);
                dot.append(" [label=\"ε\"]\n");
            },
            State::End => {
                dot.append("\t");
                push_decimal(&mut dot, id);
                dot.append(" [shape=\"doublecircle\"]\n");
            },
            _ => {},
        }
        assert(dot@ =~= before + dot_state(id as nat, states@[id as int]));
        assert(dot@ =~= head + dot_states(states@, (id + 1) as nat));
        id = id + 1;
    }
    dot.append("}");
    dot
}

} // verus!
