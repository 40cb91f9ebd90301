//! Drawing a random word that an automaton accepts, by a random walk from
//! its start state to an accepting state.

use super::thompson::{is_word, lemma_compiled_language};
use super::{Automaton, Char, State, StateId, NFA};
use crate::parser::AST;
use crate::text::push_char;
use rand::Rng;
use vstd::prelude::*;

verus! {

/// A coin flip from `rand`'s thread-local generator: `rand::thread_rng`
/// and `Rng::gen` at `bool`. Nothing is claimed of the outcome.
#[verifier::external_body]
fn random_bool() -> (coin: bool) {
    rand::thread_rng().gen::<bool>()
}

/// A character from `rand`'s thread-local generator: `rand::thread_rng`
/// and `Rng::gen` at `char`. Nothing is claimed of the outcome.
#[verifier::external_body]
fn random_char() -> (c: char) {
    rand::thread_rng().gen::<char>()
}

/// One step of a walk: where it goes, and the character it emits if the
/// transition consumes one.
#[derive(Debug, Clone, Copy, PartialEq, Eq)]
pub struct Step {
    pub next: StateId,
    pub emitted: Option<char>,
}

impl Automaton {
    /// Whether every walk from `p` is in an accepting state after at most
    /// `n` steps, whichever way it goes at the splits.
    pub open spec fn must_end(self, p: StateId, n: nat) -> bool
        decreases n,
    {
        p < self.states.len() && match self.states[p as int] {
            State::End => true,
            State::Start(t) => n > 0 && t is Some && self.must_end(t->0, (n - 1) as nat),
            State::Match(_, t) => n > 0 && t is Some && self.must_end(t->0, (n - 1) as nat),
            State::Split(a, b) => n > 0 && a is Some && b is Some && self.must_end(
                a->0,
                (n - 1) as nat,
            ) && self.must_end(b->0, (n - 1) as nat),
        }
    }

    /// Whether some walk from `p` is in an accepting state after at most `n`
    /// steps.
    pub open spec fn can_end(self, p: StateId, n: nat) -> bool
        decreases n,
    {
        p < self.states.len() && match self.states[p as int] {
            State::End => true,
            State::Start(t) => n > 0 && t is Some && self.can_end(t->0, (n - 1) as nat),
            State::Match(_, t) => n > 0 && t is Some && self.can_end(t->0, (n - 1) as nat),
            State::Split(a, b) => n > 0 && ((a is Some && self.can_end(a->0, (n - 1) as nat)) || (b is Some
                && self.can_end(b->0, (n - 1) as nat))),
        }
    }

    /// The word that the walk from `p` emits, where there is but one walk,
    /// it emits literals only and it is in an accepting state after at most
    /// `n` steps: no split and no state that matches any character lies on
    /// its way. `None` where chance has a say, or `n` steps do not suffice.
    pub open spec fn only_word(self, p: StateId, n: nat) -> Option<Seq<char>>
        decreases n,
    {
        if p >= self.states.len() {
            None
        } else {
            match self.states[p as int] {
                State::End => Some(Seq::empty()),
                State::Start(t) => if n > 0 && t is Some {
                    self.only_word(t->0, (n - 1) as nat)
                } else {
                    None
                },
                State::Match(Char::Literal(c), t) => if n > 0 && t is Some {
                    match self.only_word(t->0, (n - 1) as nat) {
                        Some(w) => Some(seq![c] + w),
                        None => None,
                    }
                } else {
                    None
                },
                State::Match(Char::Any, _) => None,
                State::Split(_, _) => None,
            }
        }
    }
}

impl NFA {
    /// The step that a walk takes out of the state `position` when the coin
    /// shows `coin` and the character drawn is `filler`; `None` in an
    /// accepting state, where the walk ends. A split goes to its first
    /// transition on `true` and to its second on `false`. A matching state
    /// emits its literal, or `filler` if it matches any character.
    pub fn sample_step(&self, position: StateId, coin: bool, filler: char) -> (step: Option<Step>)
        requires
            position < self@.states.len(),
        ensures
            step == match self@.states[position as int] {
                State::Start(t) => Some(Step { next: t->0, emitted: None }),
                State::Split(a, b) => Some(
                    Step { next: if coin {
                        a->0
                    } else {
                        b->0
                    }, emitted: None },
                ),
                State::Match(Char::Literal(c), t) => Some(Step { next: t->0, emitted: Some(c) }),
                State::Match(Char::Any, t) => Some(Step { next: t->0, emitted: Some(filler) }),
                State::End => None,
            },
            step is Some ==> step->0.next < self@.states.len(),
    {
        let states = self.states();
        assert(super::resolved(self@.states[position as int], self@.states.len()));
        match states[position] {
            State::Start(Some(t)) => Some(Step { next: t, emitted: None }),
            State::Split(Some(a), Some(b)) => Some(
                Step { next: if coin {
                    a
                } else {
                    b
                }, emitted: None },
            ),
            State::Match(Char::Literal(c), Some(t)) => Some(Step { next: t, emitted: Some(c) }),
            State::Match(Char::Any, Some(t)) => Some(Step { next: t, emitted: Some(filler) }),
            _ => None,
        }
    }

    /// A random word that the automaton accepts, which is a word of the
    /// syntax tree that the automaton was compiled from; `None` if the walk
    /// took more than `limit` steps. There is a word where every walk from
    /// the start state ends within `limit` steps, and none where no walk
    /// does. Where there is but one walk and it emits literals only, the
    /// word is the one that this walk emits.
    pub fn random_regex(&self, limit: usize) -> (r: Option<String>)
        ensures
            r is Some ==> self@.accepts_exact(r->0@),
            r is Some ==> forall|ast: AST| #[trigger] self@.compiles(ast) ==> is_word(ast, r->0@),
            self@.must_end(self@.start, limit as nat) ==> r is Some,
            !self@.can_end(self@.start, limit as nat) ==> r is None,
            self@.only_word(self@.start, limit as nat) is Some ==> r is Some && r->0@
                == self@.only_word(self@.start, limit as nat)->0,
    {
        let start = self.start();
        let r = self.random_regex_traverse(start, String::new(), limit);
        proof {
            if r is Some {
                assert(r->0@.skip(0) =~= r->0@);
                assert(Seq::<char>::empty() + r->0@.skip(0) =~= r->0@.skip(0));
                assert forall|ast: AST| #[trigger] self@.compiles(ast) implies is_word(
                    ast,
                    r->0@,
                ) by {
                    lemma_compiled_language(self@, ast, r->0@);
                }
            }
        }
        r
    }

    /// Walks at random from `position` to an accepting state and appends
    /// what the walk emits to `ran`; `None` if the walk took more than
    /// `limit` steps. What was appended is a word that the automaton,
    /// entered at `position`, accepts. From an accepting state the walk is
    /// over before it begins, and `ran` comes back as it is. The walk
    /// succeeds where every walk from `position` ends within `limit` steps,
    /// and fails where no walk does. Where there is but one walk and it
    /// emits literals only, what is appended is what this walk emits.
    pub fn random_regex_traverse(&self, position: StateId, ran: String, limit: usize) -> (r: Option<
        String,
    >)
        requires
            position < self@.states.len(),
        ensures
            r is Some ==> {
                &&& r->0@.len() >= ran@.len()
                &&& r->0@.take(ran@.len() as int) == ran@
                &&& self@.accepts_from(position, r->0@.skip(ran@.len() as int))
            },
            self@.accepting(position) ==> r is Some && r->0@ == ran@,
            self@.must_end(position, limit as nat) ==> r is Some,
            !self@.can_end(position, limit as nat) ==> r is None,
            self@.only_word(position, limit as nat) is Some ==> r is Some && r->0@ == ran@
                + self@.only_word(position, limit as nat)->0,
    {
        let mut out = ran;
        let mut at = position;
        let mut left = limit;
        let ghost word = Seq::<char>::empty();
        let states = self.states();
        proof {
            assert(self@.eps_path(position, position, 0));
        }
        loop
            invariant
                self@.wf(),
                states@ == self@.states,
                at < self@.states.len(),
                out@ == ran@ + word,
                self@.reaches(position, word, at),
                self@.accepting(position) ==> at == position && word.len() == 0,
                self@.must_end(position, limit as nat) ==> self@.must_end(at, left as nat),
                !self@.can_end(position, limit as nat) ==> !self@.can_end(at, left as nat),
                self@.only_word(position, limit as nat) is Some ==> self@.only_word(
                    at,
                    left as nat,
                ) is Some && word + self@.only_word(at, left as nat)->0 == self@.only_word(
                    position,
                    limit as nat,
                )->0,
            decreases left,
        {
            let coin = random_bool();
            let filler = random_char();
            assert(super::resolved(states@[at as int], states@.len()));
            match self.sample_step(at, coin, filler) {
                None => {
                    proof {
                        assert(self@.accepting(at));
                        assert(out@.take(ran@.len() as int) =~= ran@);
                        assert(out@.skip(ran@.len() as int) =~= word);
                        if word.len() == 0 {
                            assert(out@ =~= ran@);
                        }
                        assert(word + Seq::<char>::empty() =~= word);
                    }
                    return Some(out);
                },
                Some(step) => {
                    if left == 0 {
                        return None;
                    }
                    let ghost tail = self@.only_word(at, left as nat);
                    left = left - 1;
                    match step.emitted {
                        None => {
                            proof {
                                assert(self@.eps_path(step.next, step.next, 0));
                                assert(self@.eps_path(at, step.next, 1));
                                self@.lemma_reaches_then_eps(position, word, at, step.next);
                            }
                        },
                        Some(c) => {
                            push_char(&mut out, c);
                            proof {
                                let longer = word.push(c);
                                assert(longer.drop_last() =~= word);
                                assert(self@.steps(at, longer.last()));
                                assert(self@.eps_path(step.next, step.next, 0));
                                assert(self@.reaches(position, longer, step.next));
                                assert(out@ =~= ran@ + longer);
                                if self@.only_word(position, limit as nat) is Some {
                                    let rest = self@.only_word(step.next, left as nat)->0;
                                    assert(tail->0 == seq![c] + rest);
                                    assert(longer + rest =~= word + tail->0);
                                }
                                word = longer;
                            }
                        },
                    }
                    at = step.next;
                },
            }
        }
    }
}

} // verus!
