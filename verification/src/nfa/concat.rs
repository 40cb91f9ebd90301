//! Two automata put one behind the other: the sum of two automata accepts a
//! word of the first followed by a word of the second.

use super::thompson::{
    closed, is_word, lemma_compiled_language, lemma_fragment_closed, stays_in,
};
use crate::grammar::cut;
use super::compiler::{
    entry, fragment_at, lemma_compiled_wf, lemma_fragment_bounds, lemma_fragment_frame, size,
};
use super::{Automaton, State, StateId, NFA};
use crate::parser::AST;
use vstd::prelude::*;
use vstd::std_specs::ops::AddSpecImpl;

verus! {

/// The transition `t`, led to `to` if it led to `from`.
pub open spec fn retargeted_to(t: Option<StateId>, from: StateId, to: StateId) -> Option<StateId> {
    match t {
        Some(x) => if x == from {
            Some(to)
        } else {
            Some(x)
        },
        None => None,
    }
}

/// The state `s` with every transition to `from` led to `to` instead.
pub open spec fn retargeted(s: State, from: StateId, to: StateId) -> State {
    match s {
        State::Start(t) => State::Start(retargeted_to(t, from, to)),
        State::Match(l, t) => State::Match(l, retargeted_to(t, from, to)),
        State::Split(a, b) => State::Split(retargeted_to(a, from, to), retargeted_to(b, from, to)),
        State::End => State::End,
    }
}

/// The transition `t`, led `d` states further.
pub open spec fn shifted_to(t: Option<StateId>, d: nat) -> Option<StateId> {
    match t {
        Some(x) => Some((x + d) as usize),
        None => None,
    }
}

/// The state `s` with every transition led `d` states further.
pub open spec fn shifted(s: State, d: nat) -> State {
    match s {
        State::Start(t) => State::Start(shifted_to(t, d)),
        State::Match(l, t) => State::Match(l, shifted_to(t, d)),
        State::Split(a, b) => State::Split(shifted_to(a, d), shifted_to(b, d)),
        State::End => State::End,
    }
}

/// Whether `c` is `a` and `b` joined: the start state of `a`; the states of
/// `a` between its first and its last, which lead into `b` where they led
/// to the last; the states of `b` behind its first, each led further by as
/// many states as stand before them now.
pub open spec fn joined(a: Automaton, b: Automaton, c: Automaton) -> bool {
    let nl = a.states.len() - 2;
    let nr = b.states.len() - 2;
    let between = (b.states[0]->Start_0->0 + nl) as usize;
    &&& a.states.len() >= 2
    &&& b.states.len() >= 2
    &&& c.start == 0
    &&& c.states.len() == nl + nr + 2
    &&& c.states[0] == a.states[0]
    &&& forall|q: int| 1 <= q < nl + 1 ==> #[trigger] c.states[q] == retargeted(
        a.states[q],
        (nl + 1) as usize,
        between,
    )
    &&& forall|q: int|
        1 <= q < nr + 2 ==> #[trigger] c.states[q + nl] == shifted(b.states[q], nl as nat)
}

/// A fragment that is moved takes its entry along.
pub proof fn lemma_entry_shift(ast: AST, lo: nat, d: nat)
    ensures
        entry(ast, lo + d) == entry(ast, lo) + d,
    decreases ast,
{
    match ast {
        AST::Char(_) => {},
        AST::AnyChar => {},
        AST::Catenation(l, _) => {
            lemma_entry_shift(*l, lo, d);
        },
        AST::Alternation(_, _) => {},
        AST::Closure(_) => {},
        AST::OneOrMore(x) => {
            lemma_entry_shift(*x, lo, d);
        },
    }
}

/// A fragment whose states are copied `d` places further, with their
/// transitions led `d` states further, is that fragment again.
pub proof fn lemma_fragment_shift(
    before: Seq<State>,
    after: Seq<State>,
    ast: AST,
    lo: nat,
    exit: StateId,
    d: nat,
)
    requires
        fragment_at(before, ast, lo, Some(exit)),
        lo + size(ast) + d <= after.len(),
        lo + size(ast) + d <= usize::MAX,
        exit + d <= usize::MAX,
        forall|q: int| lo <= q < lo + size(ast) ==> #[trigger] after[q + d] == shifted(before[q], d),
    ensures
        fragment_at(after, ast, lo + d, Some((exit + d) as usize)),
    decreases ast,
{
    lemma_fragment_bounds(ast, lo);
    assert(after[lo as int + d] == shifted(before[lo as int], d));
    match ast {
        AST::Char(_) => {},
        AST::AnyChar => {},
        AST::Catenation(l, r) => {
            let mid = lo + size(*l);
            lemma_fragment_bounds(*l, lo);
            lemma_fragment_bounds(*r, mid);
            lemma_entry_shift(*r, mid, d);
            lemma_fragment_shift(before, after, *l, lo, entry(*r, mid) as usize, d);
            lemma_fragment_shift(before, after, *r, mid, exit, d);
        },
        AST::Alternation(l, r) => {
            let mid = lo + size(*l);
            let split = mid + size(*r);
            lemma_fragment_bounds(*l, lo);
            lemma_fragment_bounds(*r, mid);
            lemma_entry_shift(*l, lo, d);
            lemma_entry_shift(*r, mid, d);
            lemma_fragment_shift(before, after, *l, lo, exit, d);
            lemma_fragment_shift(before, after, *r, mid, exit, d);
            assert(after[split as int + d] == shifted(before[split as int], d));
        },
        AST::Closure(x) => {
            let split = lo + size(*x);
            lemma_fragment_bounds(*x, lo);
            lemma_entry_shift(*x, lo, d);
            lemma_fragment_shift(before, after, *x, lo, split as usize, d);
            assert(after[split as int + d] == shifted(before[split as int], d));
        },
        AST::OneOrMore(x) => {
            let split = lo + size(*x);
            lemma_fragment_bounds(*x, lo);
            lemma_entry_shift(*x, lo, d);
            lemma_fragment_shift(before, after, *x, lo, split as usize, d);
            assert(after[split as int + d] == shifted(before[split as int], d));
        },
    }
}

/// Among states that can be left through another state only, none leads to
/// `from`, if `from` is neither one of them nor that state.
pub proof fn lemma_retarget_inside(
    states: Seq<State>,
    lo: int,
    hi: int,
    exit: StateId,
    from: StateId,
    to: StateId,
)
    requires
        closed(states, lo, hi, exit),
        !(lo <= from < hi),
        from != exit,
    ensures
        forall|q: int| lo <= q < hi ==> retargeted(#[trigger] states[q], from, to) == states[q],
{
    assert forall|q: int| lo <= q < hi implies retargeted(#[trigger] states[q], from, to)
        == states[q] by {
        assert(stays_in(states[q], lo, hi, exit));
    }
}

/// A fragment whose transitions to its exit are led elsewhere leaves there.
pub proof fn lemma_fragment_retarget(
    before: Seq<State>,
    after: Seq<State>,
    ast: AST,
    lo: nat,
    exit: StateId,
    to: StateId,
)
    requires
        fragment_at(before, ast, lo, Some(exit)),
        lo + size(ast) <= after.len(),
        lo + size(ast) <= usize::MAX,
        !(lo <= exit < lo + size(ast)),
        forall|q: int|
            lo <= q < lo + size(ast) ==> #[trigger] after[q] == retargeted(before[q], exit, to),
    ensures
        fragment_at(after, ast, lo, Some(to)),
    decreases ast,
{
    lemma_fragment_bounds(ast, lo);
    assert(after[lo as int] == retargeted(before[lo as int], exit, to));
    match ast {
        AST::Char(_) => {},
        AST::AnyChar => {},
        AST::Catenation(l, r) => {
            let mid = lo + size(*l);
            let between = entry(*r, mid) as usize;
            lemma_fragment_bounds(*l, lo);
            lemma_fragment_bounds(*r, mid);
            lemma_fragment_closed(before, *l, lo, between);
            lemma_retarget_inside(before, lo as int, mid as int, between, exit, to);
            lemma_fragment_frame(before, after, *l, lo, Some(between));
            lemma_fragment_retarget(before, after, *r, mid, exit, to);
        },
        AST::Alternation(l, r) => {
            let mid = lo + size(*l);
            let split = mid + size(*r);
            lemma_fragment_bounds(*l, lo);
            lemma_fragment_bounds(*r, mid);
            lemma_fragment_retarget(before, after, *l, lo, exit, to);
            lemma_fragment_retarget(before, after, *r, mid, exit, to);
            assert(after[split as int] == retargeted(before[split as int], exit, to));
        },
        AST::Closure(x) => {
            let split = lo + size(*x);
            lemma_fragment_bounds(*x, lo);
            lemma_fragment_closed(before, *x, lo, split as usize);
            lemma_retarget_inside(before, lo as int, split as int, split as usize, exit, to);
            lemma_fragment_frame(before, after, *x, lo, Some(split as usize));
            assert(after[split as int] == retargeted(before[split as int], exit, to));
        },
        AST::OneOrMore(x) => {
            let split = lo + size(*x);
            lemma_fragment_bounds(*x, lo);
            lemma_fragment_closed(before, *x, lo, split as usize);
            lemma_retarget_inside(before, lo as int, split as int, split as usize, exit, to);
            lemma_fragment_frame(before, after, *x, lo, Some(split as usize));
            assert(after[split as int] == retargeted(before[split as int], exit, to));
        },
    }
}

/// Joining the automata of two syntax trees gives the automaton of their
/// catenation.
pub proof fn lemma_joined_compiles(a: Automaton, b: Automaton, c: Automaton, l: AST, r: AST)
    requires
        a.compiles(l),
        b.compiles(r),
        joined(a, b, c),
        c.states.len() <= usize::MAX,
    ensures
        c.compiles(AST::Catenation(Box::new(l), Box::new(r))),
{
    let nl = size(l);
    let nr = size(r);
    lemma_fragment_bounds(l, 1);
    lemma_fragment_bounds(r, 1);
    lemma_entry_shift(r, 1, nl);
    let between = (entry(r, 1) + nl) as usize;
    lemma_fragment_retarget(a.states, c.states, l, 1, (nl + 1) as usize, between);
    lemma_fragment_shift(b.states, c.states, r, 1, (nr + 1) as usize, nl);
    assert(c.states[(nr + 1) as int + nl] == shifted(b.states[(nr + 1) as int], nl));
}

/// The join of two automata accepts exactly the words that are a word of
/// the first followed by a word of the second.
pub proof fn lemma_joined_language(a: Automaton, b: Automaton, c: Automaton, w: Seq<char>)
    requires
        a.compiled(),
        b.compiled(),
        joined(a, b, c),
        c.states.len() <= usize::MAX,
    ensures
        c.accepts_exact(w) <==> exists|k: int|
            #[trigger] cut(k) && 0 <= k <= w.len() && a.accepts_exact(w.take(k)) && b.accepts_exact(
                w.skip(k),
            ),
{
    let l = choose|l: AST| #[trigger] a.compiles(l);
    let r = choose|r: AST| #[trigger] b.compiles(r);
    let both = AST::Catenation(Box::new(l), Box::new(r));
    lemma_joined_compiles(a, b, c, l, r);
    lemma_compiled_language(c, both, w);
    if c.accepts_exact(w) {
        let k = choose|k: int|
            #[trigger] cut(k) && 0 <= k <= w.len() && is_word(l, w.take(k)) && is_word(
                r,
                w.skip(k),
            );
        lemma_compiled_language(a, l, w.take(k));
        lemma_compiled_language(b, r, w.skip(k));
    }
    if exists|k: int|
        #[trigger] cut(k) && 0 <= k <= w.len() && a.accepts_exact(w.take(k)) && b.accepts_exact(
            w.skip(k),
        ) {
        let k = choose|k: int|
            #[trigger] cut(k) && 0 <= k <= w.len() && a.accepts_exact(w.take(k))
                && b.accepts_exact(w.skip(k));
        lemma_compiled_language(a, l, w.take(k));
        lemma_compiled_language(b, r, w.skip(k));
    }
}

/// The state `s` with every transition to `from` led to `to` instead.
fn retarget(s: State, from: StateId, to: StateId) -> (r: State)
    ensures
        r == retargeted(s, from, to),
{
    match s {
        State::Start(t) => State::Start(retarget_to(t, from, to)),
        State::Match(l, t) => State::Match(l, retarget_to(t, from, to)),
        State::Split(a, b) => State::Split(retarget_to(a, from, to), retarget_to(b, from, to)),
        State::End => State::End,
    }
}

/// The transition `t`, led to `to` if it led to `from`.
fn retarget_to(t: Option<StateId>, from: StateId, to: StateId) -> (r: Option<StateId>)
    ensures
        r == retargeted_to(t, from, to),
{
    match t {
        Some(x) => if x == from {
            Some(to)
        } else {
            Some(x)
        },
        None => None,
    }
}

/// The transition `t`, led `d` states further.
fn shift_to(t: Option<StateId>, d: usize) -> (r: Option<StateId>)
    requires
        t is Some ==> t->0 + d <= usize::MAX,
    ensures
        r == shifted_to(t, d as nat),
{
    match t {
        Some(x) => Some(x + d),
        None => None,
    }
}

/// The state `s` with every transition led `d` states further.
fn shift(s: State, d: usize, Ghost(n): Ghost<nat>) -> (r: State)
    requires
        super::resolved(s, n),
        n + d <= usize::MAX,
    ensures
        r == shifted(s, d as nat),
{
    match s {
        State::Start(t) => State::Start(shift_to(t, d)),
        State::Match(l, t) => State::Match(l, shift_to(t, d)),
        State::Split(a, b) => State::Split(shift_to(a, d), shift_to(b, d)),
        State::End => State::End,
    }
}

impl core::ops::Add for NFA {
    type Output = NFA;

    /// The automaton that accepts a word of `self` followed by a word of
    /// `rhs`: the two automata joined, which is the automaton of the
    /// catenation of their syntax trees.
    fn add(self, rhs: NFA) -> (sum: NFA)
        ensures
            joined(self@, rhs@, sum@),
            forall|l: AST, r: AST|
                self@.compiles(l) && rhs@.compiles(r) ==> #[trigger] sum@.compiles(
                    AST::Catenation(Box::new(l), Box::new(r)),
                ),
    {
        let left = self.states();
        let right = rhs.states();
        let ghost l0 = choose|l: AST| #[trigger] self@.compiles(l);
        let ghost r0 = choose|r: AST| #[trigger] rhs@.compiles(r);
        proof {
            lemma_fragment_bounds(l0, 1);
            lemma_fragment_bounds(r0, 1);
        }
        let last_left = left.len() - 1;
        let last_right = right.len() - 1;
        let mut states: Vec<State> = Vec::new();
        let mut q: usize = 0;
        while q < last_left
            invariant
                q <= last_left,
                last_left == left@.len() - 1,
                states@ == left@.take(q as int),
            decreases last_left - q,
        {
            states.push(left[q]);
            assert(states@ =~= left@.take(q + 1));
            q = q + 1;
        }
        let mut j: usize = 1;
        while j <= last_right
            invariant
                1 <= j <= last_right + 1,
                last_right < usize::MAX,
                last_right == right@.len() - 1,
                last_left == left@.len() - 1,
                states@ == left@.take(last_left as int) + right@.subrange(1, j as int),
            decreases last_right + 1 - j,
        {
            states.push(right[j]);
            assert(states@ =~= left@.take(last_left as int) + right@.subrange(1, j + 1));
            j = j + 1;
        }
        let total = states.len();
        let d = last_left - 1;
        let between = match right[0] {
            State::Start(Some(e)) => e + d,
            _ => 0,
        };
        let ghost copied = states@;
        q = 1;
        while q < last_left
            invariant
                1 <= q <= last_left,
                last_left < total,
                states@.len() == total,
                copied.len() == total,
                forall|x: int| 1 <= x < q ==> #[trigger] states@[x] == retargeted(
                    copied[x],
                    last_left,
                    between,
                ),
                forall|x: int| 0 <= x < total && !(1 <= x < q) ==> #[trigger] states@[x] == copied[x],
            decreases last_left - q,
        {
            let moved = retarget(states[q], last_left, between);
            states[q] = moved;
            q = q + 1;
        }
        let ghost led = states@;
        j = last_left;
        while j < total
            invariant
                last_left <= j <= total,
                states@.len() == total,
                led.len() == total,
                total == left@.len() + right@.len() - 2,
                last_left == left@.len() - 1,
                d == last_left - 1,
                rhs@.wf(),
                right@ == rhs@.states,
                forall|x: int| last_left <= x < total ==> #[trigger] led[x] == right@[x - d],
                forall|x: int| last_left <= x < j ==> #[trigger] states@[x] == shifted(
                    led[x],
                    d as nat,
                ),
                forall|x: int| 0 <= x < total && !(last_left <= x < j) ==> #[trigger] states@[x]
                    == led[x],
            decreases total - j,
        {
            assert(led[j as int] == right@[j - d]);
            assert(super::resolved(right@[j - d], right@.len()));
            let moved = shift(states[j], d, Ghost(right@.len()));
            states[j] = moved;
            j = j + 1;
        }
        proof {
            let c = Automaton { start: 0, states: states@ };
            assert(joined(self@, rhs@, c)) by {
                assert forall|x: int| 1 <= x < last_left implies #[trigger] c.states[x]
                    == retargeted(self@.states[x], last_left, between) by {
                    assert(led[x] == retargeted(copied[x], last_left, between));
                }
                assert forall|x: int| 1 <= x < right@.len() implies #[trigger] c.states[x + d]
                    == shifted(rhs@.states[x], d as nat) by {
                    assert(states@[x + d] == shifted(led[x + d], d as nat));
                }
            }
            lemma_joined_compiles(self@, rhs@, c, l0, r0);
            lemma_compiled_wf(c, AST::Catenation(Box::new(l0), Box::new(r0)));
            assert forall|l: AST, r: AST| self@.compiles(l) && rhs@.compiles(r) implies #[trigger] c.compiles(
                AST::Catenation(Box::new(l), Box::new(r)),
            ) by {
                lemma_joined_compiles(self@, rhs@, c, l, r);
            }
        }
        NFA { start: 0, states }
    }
}

impl AddSpecImpl for NFA {
    open spec fn obeys_add_spec() -> bool {
        false
    }

    open spec fn add_req(self, rhs: NFA) -> bool {
        true
    }

    open spec fn add_spec(self, rhs: NFA) -> NFA {
        self
    }
}

} // verus!
