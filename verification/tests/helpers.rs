use thegrep::nfa::helpers::{nfa_dot, nfa_dump, push_listed};
use thegrep::nfa::{compile_pattern, Char};
use thegrep::text::{digit_char, push_decimal, push_decimal_padded};

#[test]
fn dump_lists_the_states() {
    let nfa = compile_pattern("a").unwrap();
    assert_eq!(
        nfa_dump(&nfa),
        "000 | Start(Some(1))\n001 | Match(Literal('a'), Some(2))\n002 | End\n"
    );
}

#[test]
fn dump_of_a_closure() {
    let nfa = compile_pattern(".*").unwrap();
    assert_eq!(
        nfa_dump(&nfa),
        "000 | Start(Some(2))\n001 | Match(Any, Some(2))\n002 | Split(Some(1), Some(3))\n003 | End\n"
    );
}

#[test]
fn dot_of_an_alternation() {
    let nfa = compile_pattern("a|.").unwrap();
    let expected = String::from("digraph nfa {\n\tnode [shape = circle];\n")
        + "\tstart [shape=\"none\"]\n\tstart -> 3\n"
        + "\t1 -> 4 [label=\"a\"]\n"
        + "\t2 -> 4 [label=\"ANY\"]\n"
        + "\t3 -> 2 [label=\"ε\"]\n\t3 -> 1 [label=\"ε\"]\n"
        + "\t4 [shape=\"doublecircle\"]\n"
        + "}";
    assert_eq!(nfa_dot(&nfa), expected);
}

#[test]
fn dot_of_a_long_catenation_has_two_digit_ids() {
    let nfa = compile_pattern("abcdefghijk").unwrap();
    let dot = nfa_dot(&nfa);
    assert!(dot.contains("\t10 -> 11 [label=\"j\"]\n"));
    assert!(dot.contains("\t11 -> 12 [label=\"k\"]\n"));
    assert!(dot.ends_with("\t12 [shape=\"doublecircle\"]\n}"));
}

#[test]
fn labels() {
    assert_eq!(Char::Literal('x').label(), "x");
    assert_eq!(Char::Literal(' ').label(), " ");
    assert_eq!(Char::Any.label(), "ANY");
}

#[test]
fn decimal_digits() {
    for (n, text) in [
        (0usize, "0"),
        (7, "7"),
        (10, "10"),
        (99, "99"),
        (100, "100"),
        (12345, "12345"),
        (9007199254740993, "9007199254740993"),
    ] {
        let mut out = String::from("n=");
        push_decimal(&mut out, n);
        assert_eq!(out, format!("n={}", text));
    }
    let mut out = String::new();
    push_decimal(&mut out, usize::MAX);
    assert_eq!(out, format!("{}", usize::MAX));
    assert_eq!(digit_char(0), '0');
    assert_eq!(digit_char(9), '9');
}

#[test]
fn decimal_padded_to_three() {
    for (n, text) in [
        (0usize, "000"),
        (9, "009"),
        (10, "010"),
        (99, "099"),
        (100, "100"),
        (1234, "1234"),
    ] {
        let mut out = String::new();
        push_decimal_padded(&mut out, n);
        assert_eq!(out, text);
    }
}

#[test]
fn listed_line() {
    let mut out = String::from(">");
    push_listed(&mut out, 7, "seven");
    push_listed(&mut out, 1234, "");
    assert_eq!(out, ">007 | seven\n1234 | \n");
}
