use thegrep::nfa::sample::Step;
use thegrep::nfa::compile_pattern;

#[test]
fn walk_through_a_word_gives_the_word() {
    let nfa = compile_pattern("abc").unwrap();
    for _ in 0..20 {
        assert_eq!(nfa.random_regex(100), Some(String::from("abc")));
    }
}

#[test]
fn walk_picks_a_branch() {
    let nfa = compile_pattern("ab|cd").unwrap();
    let mut seen_first = false;
    let mut seen_second = false;
    for _ in 0..200 {
        let word = nfa.random_regex(100).unwrap();
        assert!(word == "ab" || word == "cd");
        seen_first = seen_first || word == "ab";
        seen_second = seen_second || word == "cd";
    }
    assert!(seen_first && seen_second);
}

#[test]
fn drawn_words_are_accepted() {
    for pattern in ["a*b+", "(a|b)*c", ".x.", "(ab)+|c*"] {
        let nfa = compile_pattern(pattern).unwrap();
        for _ in 0..50 {
            if let Some(word) = nfa.random_regex(10_000) {
                assert!(nfa.accepts(&word));
            }
        }
    }
}

#[test]
fn closure_words_repeat_the_character() {
    let nfa = compile_pattern("a*").unwrap();
    for _ in 0..50 {
        if let Some(word) = nfa.random_regex(10_000) {
            assert!(word.chars().all(|c| c == 'a'));
        }
    }
}

#[test]
fn dot_emits_one_character() {
    let nfa = compile_pattern(".").unwrap();
    for _ in 0..50 {
        assert_eq!(nfa.random_regex(10).unwrap().chars().count(), 1);
    }
}

#[test]
fn walk_stops_at_the_limit() {
    let nfa = compile_pattern("a").unwrap();
    assert_eq!(nfa.random_regex(0), None);
    assert_eq!(nfa.random_regex(1), None);
    assert_eq!(nfa.random_regex(2), Some(String::from("a")));
}

#[test]
fn traverse_appends_to_what_it_is_given() {
    let nfa = compile_pattern("ab").unwrap();
    assert_eq!(
        nfa.random_regex_traverse(nfa.start(), String::from("x"), 10),
        Some(String::from("xab"))
    );
    assert_eq!(
        nfa.random_regex_traverse(2, String::from("x"), 10),
        Some(String::from("xb"))
    );
    assert_eq!(
        nfa.random_regex_traverse(3, String::from("x"), 0),
        Some(String::from("x"))
    );
}

#[test]
fn steps_of_a_walk() {
    let nfa = compile_pattern("a|.").unwrap();
    assert_eq!(
        nfa.sample_step(0, true, 'z'),
        Some(Step {
            next: 3,
            emitted: None
        })
    );
    assert_eq!(
        nfa.sample_step(3, true, 'z'),
        Some(Step {
            next: 1,
            emitted: None
        })
    );
    assert_eq!(
        nfa.sample_step(3, false, 'z'),
        Some(Step {
            next: 2,
            emitted: None
        })
    );
    assert_eq!(
        nfa.sample_step(1, false, 'z'),
        Some(Step {
            next: 4,
            emitted: Some('a')
        })
    );
    assert_eq!(
        nfa.sample_step(2, false, 'z'),
        Some(Step {
            next: 4,
            emitted: Some('z')
        })
    );
    assert_eq!(nfa.sample_step(4, false, 'z'), None);
}

#[test]
fn walk_that_must_end_gives_a_word() {
    let nfa = compile_pattern("ab|cd").unwrap();
    for _ in 0..100 {
        assert!(nfa.random_regex(4).is_some());
        assert_eq!(nfa.random_regex(3), None);
    }
    let dots = compile_pattern("..").unwrap();
    for _ in 0..100 {
        assert_eq!(dots.random_regex(3).unwrap().chars().count(), 2);
        assert_eq!(dots.random_regex(2), None);
    }
}

#[test]
fn only_walk_gives_its_word() {
    let nfa = compile_pattern("(x)(yz)").unwrap();
    for _ in 0..20 {
        assert_eq!(nfa.random_regex(4), Some(String::from("xyz")));
        assert_eq!(nfa.random_regex(3), None);
        assert_eq!(
            nfa.random_regex_traverse(2, String::from("w"), 2),
            Some(String::from("wyz"))
        );
        assert_eq!(nfa.random_regex_traverse(2, String::from("w"), 1), None);
    }
}
