use thegrep::nfa::compiler::compile;
use thegrep::nfa::{compile_pattern, matches_line, Char, CompileError, State, NFA};
use thegrep::parser::{build_anychar, build_char, build_closure, ParseError};
use thegrep::tokenizer::Token;

#[test]
fn test0() {
    let nfa = NFA::from("a").unwrap();
    assert_eq!(nfa.accepts("a"), true);
}

#[test]
fn test1() {
    let nfa = NFA::from("sarah").unwrap();
    assert_eq!(nfa.accepts("ra"), false);
}

#[test]
fn test2() {
    let nfa = NFA::from("a.*").unwrap();
    assert_eq!(nfa.accepts("abb"), true);
}

#[test]
fn test3() {
    let nfa = NFA::from("hello").unwrap();
    assert_eq!(nfa.accepts("no"), false);
}

#[test]
fn test4() {
    let nfa = NFA::from("aut....a").unwrap();
    assert_eq!(nfa.accepts("automata"), true);
}

#[test]
fn test5() {
    let nfa = NFA::from("aut....a").unwrap();
    assert_eq!(nfa.accepts("asdfasdf"), false);
}

#[test]
fn test6() {
    let nfa = NFA::from("aut....a").unwrap();
    assert_eq!(nfa.accepts("chautanqua"), true);
}

#[test]
fn test7() {
    let nfa = NFA::from("etion").unwrap();
    assert_eq!(nfa.accepts("deletion"), true);
}

#[test]
fn test8() {
    let nfa = NFA::from("etion").unwrap();
    assert_eq!(nfa.accepts("completion"), true);
}

#[test]
fn test9() {
    let nfa = NFA::from("tool").unwrap();
    assert_eq!(nfa.accepts("toadstools"), true);
}

#[test]
fn test10() {
    let nfa = NFA::from("bl.*").unwrap();
    assert_eq!(nfa.accepts("blue"), true);
}

#[test]
fn test11() {
    let nfa = NFA::from("bl.*").unwrap();
    assert_eq!(nfa.accepts("reblock"), true);
}

#[test]
fn test12() {
    let nfa = NFA::from("bl.*").unwrap();
    assert_eq!(nfa.accepts("dog"), false);
}

#[test]
fn test13() {
    let nfa = NFA::from("b|rag").unwrap();
    assert_eq!(nfa.accepts("rag"), true);
    assert_eq!(nfa.accepts("bag"), true);
    assert_eq!(nfa.accepts("hag"), false);
}

#[test]
fn test14() {
    let nfa = NFA::from("h|yell.*").unwrap();
    assert_eq!(nfa.accepts("hello"), true);
    assert_eq!(nfa.accepts("hell"), true);
    assert_eq!(nfa.accepts("yellowed"), true);
    assert_eq!(nfa.accepts("yell"), true);
    assert_eq!(nfa.accepts("asdfasdfasdfhell"), true);
    assert_eq!(nfa.accepts("bellow"), false);
}

#[test]
fn test15() {
    let nfa = NFA::from("..*fee").unwrap();
    assert_eq!(nfa.accepts("coffee"), true);
    assert_eq!(nfa.accepts("fee"), false);
    assert_eq!(nfa.accepts("blahcoffeeblah"), true);
    assert_eq!(nfa.accepts("teefee"), true);
    assert_eq!(nfa.accepts("eeeeeeeee"), false);
}

#[test]
fn test16() {
    let nfa = NFA::from("a..b").unwrap();
    assert_eq!(nfa.accepts("aaaaaaaaaaaaaaaaab"), true);
    assert_eq!(nfa.accepts("aaab"), true);
    assert_eq!(nfa.accepts("aaaaaab"), true);
}

#[test]
fn test20() {
    let nfa = NFA::from("aaab").unwrap();
    assert_eq!(nfa.accepts("aaaab"), true);
}

#[test]
fn test21() {
    let nfa = NFA::from(".*").unwrap();
    assert_eq!(nfa.accepts("bca"), true);
    assert_eq!(nfa.accepts(""), true);
}

#[test]
fn test17() {
    let nfa = NFA::from("(a|o)(p|r).*").unwrap();
    assert_eq!(nfa.accepts("orange"), true);
    assert_eq!(nfa.accepts("apple"), true);
    assert_eq!(nfa.accepts("opple"), true);
    assert_eq!(nfa.accepts("aaaaaa"), false);
    assert_eq!(nfa.accepts("o"), false);
    assert_eq!(nfa.accepts("aaaaaaaaaaaaaaaaaaapple"), true);
    assert_eq!(nfa.accepts("prprprprprp"), false);
    assert_eq!(nfa.accepts(""), false);
}

#[test]
fn single_character_pattern() {
    let nfa = compile_pattern("a").unwrap();
    assert!(matches_line(&nfa, "a"));
    assert!(!matches_line(&nfa, "b"));
    assert!(!matches_line(&nfa, ""));
}

#[test]
fn dot_star_matches_every_line() {
    let nfa = compile_pattern(".*").unwrap();
    for line in ["", "a", "bca", "  ", "(|)*+.", "日本語"] {
        assert!(matches_line(&nfa, line));
    }
}

#[test]
fn match_need_not_be_anchored() {
    let nfa = compile_pattern("etion").unwrap();
    assert!(matches_line(&nfa, "completion"));
    assert!(matches_line(&nfa, "etiology etion"));
    assert!(!matches_line(&nfa, "etio"));
    assert!(!matches_line(&nfa, "e t i o n"));
}

#[test]
fn closure_matches_nothing_at_all() {
    let star = compile_pattern("a*").unwrap();
    assert!(matches_line(&star, ""));
    assert!(matches_line(&star, "bbb"));
    let plus = compile_pattern("a+").unwrap();
    assert!(!matches_line(&plus, ""));
    assert!(matches_line(&plus, "a"));
    assert!(matches_line(&plus, "bab"));
    assert!(!matches_line(&plus, "bbb"));
}

#[test]
fn one_or_more_repeats() {
    let nfa = compile_pattern("x(ab)+y").unwrap();
    assert!(!matches_line(&nfa, "xy"));
    assert!(matches_line(&nfa, "xaby"));
    assert!(matches_line(&nfa, "..xababababy.."));
    assert!(!matches_line(&nfa, "xabay"));
}

#[test]
fn blank_in_pattern_must_be_matched() {
    let nfa = compile_pattern("a b").unwrap();
    assert!(matches_line(&nfa, "xa bx"));
    assert!(!matches_line(&nfa, "ab"));
}

#[test]
fn match_at_the_very_end() {
    let nfa = compile_pattern("ab").unwrap();
    assert!(matches_line(&nfa, "xxxab"));
    assert!(!matches_line(&nfa, "xxxa"));
}

#[test]
fn malformed_patterns_are_refused() {
    assert_eq!(
        compile_pattern("(a").unwrap_err(),
        CompileError::Parse(ParseError::UnexpectedEndOfInput)
    );
    assert_eq!(
        compile_pattern("a)").unwrap_err(),
        CompileError::Parse(ParseError::UnexpectedToken {
            found: Token::RParen,
            position: 1
        })
    );
    assert_eq!(
        NFA::from("a|").unwrap_err(),
        CompileError::Parse(ParseError::UnexpectedEndOfInput)
    );
    assert_eq!(
        NFA::from("").unwrap_err(),
        CompileError::Parse(ParseError::UnexpectedEndOfInput)
    );
}

#[test]
fn ambiguous_pattern_on_long_line() {
    let nfa = compile_pattern("(a|a)*b").unwrap();
    let mut line = String::new();
    for _ in 0..2000 {
        line.push('a');
    }
    assert!(!matches_line(&nfa, &line));
    line.push('b');
    assert!(matches_line(&nfa, &line));
    let loops = compile_pattern("(a*)*c").unwrap();
    assert!(!matches_line(&loops, &line));
}

#[test]
fn states_of_a_closure() {
    let nfa = compile(&build_closure(build_anychar()));
    assert_eq!(nfa.start(), 0);
    assert_eq!(
        nfa.states(),
        &vec![
            State::Start(Some(2)),
            State::Match(Char::Any, Some(2)),
            State::Split(Some(1), Some(3)),
            State::End,
        ]
    );
}

#[test]
fn states_of_a_pattern() {
    let nfa = compile_pattern("a(b|c)+").unwrap();
    assert_eq!(nfa.start(), 0);
    assert_eq!(
        nfa.states(),
        &vec![
            State::Start(Some(1)),
            State::Match(Char::Literal('a'), Some(4)),
            State::Match(Char::Literal('b'), Some(5)),
            State::Match(Char::Literal('c'), Some(5)),
            State::Split(Some(2), Some(3)),
            State::Split(Some(4), Some(6)),
            State::End,
        ]
    );
}

#[test]
fn traverse_from_an_offset() {
    let nfa = compile(&build_char('b'));
    let chars: Vec<char> = "abc".chars().collect();
    assert!(!nfa.traverse(&chars, 0, nfa.start()));
    assert!(nfa.traverse(&chars, 1, nfa.start()));
    assert!(!nfa.traverse(&chars, 2, nfa.start()));
    assert!(!nfa.traverse(&chars, 3, nfa.start()));
    assert!(nfa.traverse(&chars, 3, 2));
}

#[test]
fn epsilon_closure_marks() {
    let nfa = compile(&build_closure(build_anychar()));
    assert_eq!(
        nfa.epsilon_closure(&vec![nfa.start()]),
        vec![true, true, true, true]
    );
    assert_eq!(
        nfa.epsilon_closure(&vec![1]),
        vec![false, true, false, false]
    );
    assert_eq!(nfa.epsilon_closure(&vec![]), vec![false; 4]);
    assert_eq!(
        nfa.epsilon_closure(&vec![3, 3]),
        vec![false, false, false, true]
    );
}

#[test]
fn optest0() {
    let nfa1 = NFA::from("a").unwrap();
    let nfa2 = NFA::from("b").unwrap();
    let nfa = nfa1 + nfa2;
    assert_eq!(nfa.accepts("ab"), true);
}

#[test]
fn optest1() {
    let nfa1 = NFA::from("a").unwrap();
    let nfa2 = NFA::from("a").unwrap();
    let nfa = nfa1 + nfa2;
    assert_eq!(nfa.accepts("mmmmmmaaaaaa"), true);
    assert_eq!(nfa.accepts("jaja"), false);
    assert_eq!(nfa.accepts("ab"), false);
}

#[test]
fn optest2() {
    let nfa1 = NFA::from("ri").unwrap();
    let nfa2 = NFA::from("ha.*").unwrap();
    let nfa = nfa1 + nfa2;
    assert_eq!(nfa.accepts("rihanna"), true);
}

#[test]
fn optest3() {
    let nfa1 = NFA::from("a|b").unwrap();
    let nfa2 = NFA::from("c|d").unwrap();
    let nfa = nfa1 + nfa2;
    assert_eq!(nfa.accepts("ac"), true);
    assert_eq!(nfa.accepts("bd"), true);
}

#[test]
fn optest4() {
    let nfa1 = NFA::from("a*").unwrap();
    let nfa2 = NFA::from("c").unwrap();
    let nfa = nfa1 + nfa2;
    assert_eq!(nfa.accepts("ac"), true);
    assert_eq!(nfa.accepts("aaaaaaac"), true);
    assert_eq!(nfa.accepts("c"), true);
    assert_eq!(nfa.accepts("bbbb"), false);
}

#[test]
fn optest5() {
    let nfa1 = NFA::from(".").unwrap();
    let nfa2 = NFA::from("b").unwrap();
    let nfa = nfa1 + nfa2;
    assert_eq!(nfa.accepts("ab"), true);
    assert_eq!(nfa.accepts("bumblebee"), true);
    assert_eq!(nfa.accepts("bear"), false);
}

#[test]
fn optest6() {
    let nfa1 = NFA::from("ab(c|d)").unwrap();
    let nfa2 = NFA::from("x(y|z)").unwrap();
    let nfa = nfa1 + nfa2;
    assert_eq!(nfa.accepts("abdxy"), true);
    assert_eq!(nfa.accepts("abcxy"), true);
    assert_eq!(nfa.accepts("abcxz"), true);
}

#[test]
fn optest7() {
    let nfa1 = NFA::from("tar").unwrap();
    let nfa2 = NFA::from("heels").unwrap();
    let nfa = nfa1 + nfa2;
    assert_eq!(nfa.accepts("tarheels"), true);
    assert_eq!(nfa.accepts("ttttttttarheelsssssss"), true);
    assert_eq!(nfa.accepts("tarpoopheels"), false);
    assert_eq!(nfa.accepts("tar*heels"), false);
}

#[test]
fn optest8() {
    let nfa1 = NFA::from("12.34").unwrap();
    let nfa2 = NFA::from("ugh").unwrap();
    let nfa = nfa1 + nfa2;
    assert_eq!(nfa.accepts("1234"), false);
    assert_eq!(nfa.accepts("12p34ugh"), true);
    assert_eq!(nfa.accepts("12.34poop ugh"), false);
}

#[test]
fn optest9() {
    let nfa1 = NFA::from("(taa*r)|(hh*eelss*)").unwrap();
    let nfa2 = NFA::from("(poo*p)|(yee*s.)").unwrap();
    let nfa = nfa1 + nfa2;
    assert_eq!(nfa.accepts("taaaaaaaryeeeeees0"), true);
    assert_eq!(nfa.accepts("taaaaaaarpooooooop"), true);
    assert_eq!(nfa.accepts("hhhhheelssspooooop"), true);
    assert_eq!(nfa.accepts("heelspooooop"), true);
}

#[test]
fn optest10() {
    let nfa1 = NFA::from(".*").unwrap();
    let nfa2 = NFA::from(".*").unwrap();
    let nfa = nfa1 + nfa2;
    assert_eq!(nfa.accepts("a"), true);
    assert_eq!(nfa.accepts(""), true);
}

#[test]
fn sum_is_the_automaton_of_the_catenation() {
    let sum = compile_pattern("a|b").unwrap() + compile_pattern("c*").unwrap();
    let whole = compile_pattern("(a|b)(c*)").unwrap();
    assert_eq!(sum.start(), whole.start());
    assert_eq!(sum.states(), whole.states());
    assert_eq!(
        sum.states(),
        &vec![
            State::Start(Some(3)),
            State::Match(Char::Literal('a'), Some(5)),
            State::Match(Char::Literal('b'), Some(5)),
            State::Split(Some(1), Some(2)),
            State::Match(Char::Literal('c'), Some(5)),
            State::Split(Some(4), Some(6)),
            State::End,
        ]
    );
}

#[test]
fn sum_of_three() {
    let nfa = NFA::from("a+").unwrap() + NFA::from("b").unwrap() + NFA::from("c|d").unwrap();
    assert!(nfa.accepts("xaaabdx"));
    assert!(nfa.accepts("abc"));
    assert!(!nfa.accepts("bc"));
    assert!(!nfa.accepts("ab"));
}

#[test]
fn ambiguous_pattern_on_long_line_of_other_characters() {
    let nfa = compile_pattern("(a|a)*b").unwrap();
    let mut line = String::new();
    for _ in 0..100_000 {
        line.push('c');
    }
    assert!(!matches_line(&nfa, &line));
    line.push('b');
    assert!(matches_line(&nfa, &line));
    let always = compile_pattern("(a|a)*").unwrap();
    assert!(matches_line(&always, &line));
}

#[test]
fn run_ends_when_no_state_is_left() {
    let nfa = compile_pattern("ab").unwrap();
    let chars: Vec<char> = "acab".chars().collect();
    assert!(!nfa.traverse(&chars, 0, nfa.start()));
    assert!(!nfa.traverse(&chars, 1, nfa.start()));
    assert!(nfa.traverse(&chars, 2, nfa.start()));
    assert!(nfa.accepts("acab"));
    assert!(!nfa.accepts("acacb"));
}
