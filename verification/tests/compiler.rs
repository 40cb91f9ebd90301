use thegrep::nfa::compiler::{compile, Builder, Fragment};
use thegrep::nfa::{Char, State};
use thegrep::parser::{
    build_alternation, build_anychar, build_catenation, build_char, build_closure,
    build_one_or_more,
};
use thegrep::tokenizer::chars_of;

#[test]
fn builder_starts_empty_and_grows() {
    let mut builder = Builder::new();
    assert!(builder.states.is_empty());
    assert_eq!(builder.add_state(State::Start(None)), 0);
    assert_eq!(builder.add_state(State::End), 1);
    assert_eq!(builder.states, vec![State::Start(None), State::End]);
}

#[test]
fn join_binds_the_loose_end() {
    let mut builder = Builder::new();
    builder.add_state(State::Start(None));
    builder.add_state(State::Match(Char::Any, None));
    builder.add_state(State::Split(Some(1), None));
    builder.add_state(State::End);
    builder.join(0, 2);
    builder.join(1, 2);
    builder.join(2, 3);
    builder.join(3, 0);
    assert_eq!(
        builder.states,
        vec![
            State::Start(Some(2)),
            State::Match(Char::Any, Some(2)),
            State::Split(Some(1), Some(3)),
            State::End,
        ]
    );
}

#[test]
fn join_fragment_binds_every_end() {
    let mut builder = Builder::new();
    builder.add_state(State::Match(Char::Literal('a'), None));
    builder.add_state(State::Match(Char::Literal('b'), None));
    builder.add_state(State::Match(Char::Literal('c'), None));
    let fragment = Fragment {
        start: 0,
        ends: vec![0, 2, 0],
    };
    builder.join_fragment(&fragment, 7);
    assert_eq!(
        builder.states,
        vec![
            State::Match(Char::Literal('a'), Some(7)),
            State::Match(Char::Literal('b'), None),
            State::Match(Char::Literal('c'), Some(7)),
        ]
    );
}

#[test]
fn fragment_of_a_character() {
    let mut builder = Builder::new();
    builder.add_state(State::Start(None));
    let fragment = builder.gen_fragment(&build_char('x'));
    assert_eq!(fragment.start, 1);
    assert_eq!(fragment.ends, vec![1]);
    assert_eq!(
        builder.states,
        vec![
            State::Start(None),
            State::Match(Char::Literal('x'), None)
        ]
    );
}

#[test]
fn fragment_of_a_catenation() {
    let mut builder = Builder::new();
    let fragment = builder.gen_fragment(&build_catenation(build_char('a'), build_anychar()));
    assert_eq!(fragment.start, 0);
    assert_eq!(fragment.ends, vec![1]);
    assert_eq!(
        builder.states,
        vec![
            State::Match(Char::Literal('a'), Some(1)),
            State::Match(Char::Any, None),
        ]
    );
}

#[test]
fn fragment_of_an_alternation() {
    let mut builder = Builder::new();
    let fragment = builder.gen_fragment(&build_alternation(build_char('a'), build_char('b')));
    assert_eq!(fragment.start, 2);
    assert_eq!(fragment.ends, vec![0, 1]);
    assert_eq!(
        builder.states,
        vec![
            State::Match(Char::Literal('a'), None),
            State::Match(Char::Literal('b'), None),
            State::Split(Some(0), Some(1)),
        ]
    );
}

#[test]
fn fragment_of_a_closure() {
    let mut builder = Builder::new();
    let fragment = builder.gen_fragment(&build_closure(build_char('a')));
    assert_eq!(fragment.start, 1);
    assert_eq!(fragment.ends, vec![1]);
    assert_eq!(
        builder.states,
        vec![
            State::Match(Char::Literal('a'), Some(1)),
            State::Split(Some(0), None),
        ]
    );
}

#[test]
fn fragment_of_a_one_or_more() {
    let mut builder = Builder::new();
    let fragment = builder.gen_fragment(&build_one_or_more(build_char('a')));
    assert_eq!(fragment.start, 0);
    assert_eq!(fragment.ends, vec![1]);
    assert_eq!(
        builder.states,
        vec![
            State::Match(Char::Literal('a'), Some(1)),
            State::Split(Some(0), None),
        ]
    );
}

#[test]
fn automaton_of_a_one_or_more() {
    let nfa = compile(&build_one_or_more(build_char('a')));
    assert_eq!(nfa.start(), 0);
    assert_eq!(
        nfa.states(),
        &vec![
            State::Start(Some(1)),
            State::Match(Char::Literal('a'), Some(2)),
            State::Split(Some(1), Some(3)),
            State::End,
        ]
    );
    assert!(nfa.accepts("baab"));
    assert!(!nfa.accepts("bb"));
}

#[test]
fn automaton_of_nested_closures() {
    let nfa = compile(&build_closure(build_closure(build_char('a'))));
    assert_eq!(
        nfa.states(),
        &vec![
            State::Start(Some(3)),
            State::Match(Char::Literal('a'), Some(2)),
            State::Split(Some(1), Some(3)),
            State::Split(Some(2), Some(4)),
            State::End,
        ]
    );
    assert!(nfa.accepts(""));
    assert!(nfa.accepts("aaa"));
}

#[test]
fn characters_of_a_string() {
    assert_eq!(chars_of(""), Vec::<char>::new());
    assert_eq!(chars_of("a|é"), vec!['a', '|', 'é']);
}
