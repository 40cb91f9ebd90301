//! The words of a pattern, and the proof that the automaton compiled from a
//! syntax tree accepts exactly the words of the tree.

use super::compiler::{entry, fragment_at, lemma_fragment_bounds, size};
use super::{label_matches, Automaton, State, StateId};
use crate::grammar::cut;
use crate::parser::AST;
use vstd::prelude::*;

verus! {

/// Whether the word `w` is one of the words of `ast`.
pub open spec fn is_word(ast: AST, w: Seq<char>) -> bool
    decreases ast, 0nat, w.len(),
{
    match ast {
        AST::Char(c) => w == seq![c],
        AST::AnyChar => w.len() == 1,
        AST::Catenation(l, r) => exists|k: int|
            #[trigger] cut(k) && 0 <= k <= w.len() && is_word(*l, w.take(k)) && is_word(
                *r,
                w.skip(k),
            ),
        AST::Alternation(l, r) => is_word(*l, w) || is_word(*r, w),
        AST::Closure(x) => is_words(*x, w),
        AST::OneOrMore(x) => exists|k: int|
            #[trigger] cut(k) && 0 <= k <= w.len() && is_word(*x, w.take(k)) && is_words(
                *x,
                w.skip(k),
            ),
    }
}

/// Whether the word `w` is made of words of `x`, none or more of them, one
/// behind the other.
pub open spec fn is_words(x: AST, w: Seq<char>) -> bool
    decreases x, 1nat, w.len(),
{
    w.len() == 0 || exists|k: int|
        #[trigger] cut(k) && 0 < k <= w.len() && is_word(x, w.take(k)) && is_words(
            x,
            w.skip(k),
        )
}

/// Whether some contiguous part of `line` is a word of `ast`.
pub open spec fn matches_within(ast: AST, line: Seq<char>) -> bool {
    exists|i: int, j: int|
        0 <= i <= j <= line.len() && #[trigger] is_word(ast, line.subrange(i, j))
}

/// Whether one can walk from `p` to `q`, reading exactly `w`, by at most `n`
/// transitions, each taken out of a state from `lo` up to `hi`.
pub open spec fn walk(
    states: Seq<State>,
    lo: int,
    hi: int,
    p: StateId,
    w: Seq<char>,
    q: StateId,
    n: nat,
) -> bool
    decreases n,
{
    (p == q && w.len() == 0) || (n > 0 && lo <= p < hi && p < states.len() && match states[p as int] {
        State::Start(t) => t is Some && walk(states, lo, hi, t->0, w, q, (n - 1) as nat),
        State::Split(a, b) => (a is Some && walk(states, lo, hi, a->0, w, q, (n - 1) as nat)) || (b is Some
            && walk(states, lo, hi, b->0, w, q, (n - 1) as nat)),
        State::Match(l, t) => t is Some && w.len() > 0 && label_matches(l, w[0]) && walk(
            states,
            lo,
            hi,
            t->0,
            w.skip(1),
            q,
            (n - 1) as nat,
        ),
        State::End => false,
    })
}

/// Whether every transition of `s` leads to a state from `lo` up to `hi` or
/// to `exit`. An accepting state has no place in there.
pub open spec fn stays_in(s: State, lo: int, hi: int, exit: StateId) -> bool {
    match s {
        State::Start(t) => t is Some && (lo <= t->0 < hi || t->0 == exit),
        State::Match(_, t) => t is Some && (lo <= t->0 < hi || t->0 == exit),
        State::Split(a, b) => a is Some && (lo <= a->0 < hi || a->0 == exit) && b is Some && (lo
            <= b->0 < hi || b->0 == exit),
        State::End => false,
    }
}

/// Whether the states from `lo` up to `hi` can be left through `exit` only.
pub open spec fn closed(states: Seq<State>, lo: int, hi: int, exit: StateId) -> bool {
    &&& 0 <= lo <= hi <= states.len()
    &&& forall|q: int| lo <= q < hi ==> stays_in(#[trigger] states[q], lo, hi, exit)
}

/// A walk stays a walk when it is allowed more transitions and more states.
pub proof fn lemma_walk_wider(
    states: Seq<State>,
    lo: int,
    hi: int,
    p: StateId,
    w: Seq<char>,
    q: StateId,
    n: nat,
    lo2: int,
    hi2: int,
    m: nat,
)
    requires
        walk(states, lo, hi, p, w, q, n),
        lo2 <= lo,
        hi <= hi2,
        n <= m,
    ensures
        walk(states, lo2, hi2, p, w, q, m),
    decreases n,
{
    if !(p == q && w.len() == 0) {
        let n1 = (n - 1) as nat;
        let m1 = (m - 1) as nat;
        match states[p as int] {
            State::Start(t) => {
                lemma_walk_wider(states, lo, hi, t->0, w, q, n1, lo2, hi2, m1);
            },
            State::Split(a, b) => {
                if a is Some && walk(states, lo, hi, a->0, w, q, n1) {
                    lemma_walk_wider(states, lo, hi, a->0, w, q, n1, lo2, hi2, m1);
                } else {
                    lemma_walk_wider(states, lo, hi, b->0, w, q, n1, lo2, hi2, m1);
                }
            },
            State::Match(_, t) => {
                lemma_walk_wider(states, lo, hi, t->0, w.skip(1), q, n1, lo2, hi2, m1);
            },
            State::End => {},
        }
    }
}

/// Two walks, one behind the other, make a walk that reads both words.
pub proof fn lemma_walk_concat(
    states: Seq<State>,
    lo: int,
    hi: int,
    p: StateId,
    u: Seq<char>,
    mid: StateId,
    n1: nat,
    v: Seq<char>,
    q: StateId,
    n2: nat,
)
    requires
        walk(states, lo, hi, p, u, mid, n1),
        walk(states, lo, hi, mid, v, q, n2),
    ensures
        walk(states, lo, hi, p, u + v, q, n1 + n2),
    decreases n1,
{
    if p == mid && u.len() == 0 {
        assert(u + v =~= v);
        lemma_walk_wider(states, lo, hi, mid, v, q, n2, lo, hi, n1 + n2);
    } else {
        let m = (n1 - 1) as nat;
        match states[p as int] {
            State::Start(t) => {
                lemma_walk_concat(states, lo, hi, t->0, u, mid, m, v, q, n2);
            },
            State::Split(a, b) => {
                if a is Some && walk(states, lo, hi, a->0, u, mid, m) {
                    lemma_walk_concat(states, lo, hi, a->0, u, mid, m, v, q, n2);
                } else {
                    lemma_walk_concat(states, lo, hi, b->0, u, mid, m, v, q, n2);
                }
            },
            State::Match(_, t) => {
                lemma_walk_concat(states, lo, hi, t->0, u.skip(1), mid, m, v, q, n2);
                assert((u + v).skip(1) =~= u.skip(1) + v);
                assert((u + v)[0] == u[0]);
            },
            State::End => {},
        }
    }
}

/// A walk that begins among states that can be left through `mid` only, and
/// ends outside them, is a walk among those states up to `mid` followed by
/// a walk from `mid` on. The results are the length of the word that the
/// first part reads and the numbers of transitions that bound the parts.
pub proof fn lemma_walk_split(
    states: Seq<State>,
    lo: int,
    hi: int,
    p: StateId,
    w: Seq<char>,
    q: StateId,
    n: nat,
    lo1: int,
    hi1: int,
    mid: StateId,
) -> (r: (int, nat, nat))
    requires
        walk(states, lo, hi, p, w, q, n),
        lo <= lo1,
        hi1 <= hi,
        closed(states, lo1, hi1, mid),
        lo1 <= p < hi1 || p == mid,
        !(lo1 <= mid < hi1),
        !(lo1 <= q < hi1),
    ensures
        0 <= r.0 <= w.len(),
        walk(states, lo1, hi1, p, w.take(r.0), mid, r.1),
        walk(states, lo, hi, mid, w.skip(r.0), q, r.2),
        r.2 <= n,
    decreases n,
{
    if p == mid {
        assert(w.skip(0) =~= w);
        assert(w.take(0).len() == 0);
        (0, 0, n)
    } else {
        let m = (n - 1) as nat;
        assert(stays_in(states[p as int], lo1, hi1, mid));
        match states[p as int] {
            State::Start(t) => {
                let r = lemma_walk_split(states, lo, hi, t->0, w, q, m, lo1, hi1, mid);
                (r.0, r.1 + 1, r.2)
            },
            State::Split(a, b) => {
                if walk(states, lo, hi, a->0, w, q, m) {
                    let r = lemma_walk_split(states, lo, hi, a->0, w, q, m, lo1, hi1, mid);
                    (r.0, r.1 + 1, r.2)
                } else {
                    let r = lemma_walk_split(states, lo, hi, b->0, w, q, m, lo1, hi1, mid);
                    (r.0, r.1 + 1, r.2)
                }
            },
            State::Match(_, t) => {
                let r = lemma_walk_split(states, lo, hi, t->0, w.skip(1), q, m, lo1, hi1, mid);
                assert(w.take(r.0 + 1).skip(1) =~= w.skip(1).take(r.0));
                assert(w.skip(r.0 + 1) =~= w.skip(1).skip(r.0));
                assert(w.take(r.0 + 1)[0] == w[0]);
                (r.0 + 1, r.1 + 1, r.2)
            },
            State::End => (0, 0, 0),
        }
    }
}

/// A fragment can be left through its exit only.
pub proof fn lemma_fragment_closed(states: Seq<State>, ast: AST, lo: nat, exit: StateId)
    requires
        fragment_at(states, ast, lo, Some(exit)),
        lo + size(ast) <= usize::MAX,
    ensures
        closed(states, lo as int, (lo + size(ast)) as int, exit),
    decreases ast,
{
    let hi = lo + size(ast);
    lemma_fragment_bounds(ast, lo);
    match ast {
        AST::Char(_) => {},
        AST::AnyChar => {},
        AST::Catenation(l, r) => {
            let mid = lo + size(*l);
            lemma_fragment_bounds(*l, lo);
            lemma_fragment_bounds(*r, mid);
            lemma_fragment_closed(states, *l, lo, entry(*r, mid) as usize);
            lemma_fragment_closed(states, *r, mid, exit);
            assert forall|q: int| lo <= q < hi implies stays_in(
                #[trigger] states[q],
                lo as int,
                hi as int,
                exit,
            ) by {
                if q < mid {
                    assert(stays_in(states[q], lo as int, mid as int, entry(*r, mid) as usize));
                } else {
                    assert(stays_in(states[q], mid as int, hi as int, exit));
                }
            }
        },
        AST::Alternation(l, r) => {
            let mid = lo + size(*l);
            let split = mid + size(*r);
            lemma_fragment_bounds(*l, lo);
            lemma_fragment_bounds(*r, mid);
            lemma_fragment_closed(states, *l, lo, exit);
            lemma_fragment_closed(states, *r, mid, exit);
            assert forall|q: int| lo <= q < hi implies stays_in(
                #[trigger] states[q],
                lo as int,
                hi as int,
                exit,
            ) by {
                if q < mid {
                    assert(stays_in(states[q], lo as int, mid as int, exit));
                } else if q < split {
                    assert(stays_in(states[q], mid as int, split as int, exit));
                }
            }
        },
        AST::Closure(x) => {
            let split = lo + size(*x);
            lemma_fragment_bounds(*x, lo);
            lemma_fragment_closed(states, *x, lo, split as usize);
            assert forall|q: int| lo <= q < hi implies stays_in(
                #[trigger] states[q],
                lo as int,
                hi as int,
                exit,
            ) by {
                if q < split {
                    assert(stays_in(states[q], lo as int, split as int, split as usize));
                }
            }
        },
        AST::OneOrMore(x) => {
            let split = lo + size(*x);
            lemma_fragment_bounds(*x, lo);
            lemma_fragment_closed(states, *x, lo, split as usize);
            assert forall|q: int| lo <= q < hi implies stays_in(
                #[trigger] states[q],
                lo as int,
                hi as int,
                exit,
            ) by {
                if q < split {
                    assert(stays_in(states[q], lo as int, split as int, split as usize));
                }
            }
        },
    }
}

/// A walk that ends in a state outside the states it may pass, from among
/// states that can be left through that state only, passes those only.
pub proof fn lemma_walk_narrow(
    states: Seq<State>,
    lo: int,
    hi: int,
    p: StateId,
    w: Seq<char>,
    q: StateId,
    n: nat,
    lo1: int,
    hi1: int,
) -> (m: nat)
    requires
        walk(states, lo, hi, p, w, q, n),
        lo <= lo1,
        hi1 <= hi,
        closed(states, lo1, hi1, q),
        lo1 <= p < hi1 || p == q,
        !(lo <= q < hi),
    ensures
        walk(states, lo1, hi1, p, w, q, m),
{
    let r = lemma_walk_split(states, lo, hi, p, w, q, n, lo1, hi1, q);
    assert(w.skip(r.0).len() == 0);
    assert(w.take(r.0) =~= w);
    r.1
}

/// Every word of `ast` labels a walk through the fragment for `ast`, from
/// its entry to its exit. The result bounds the length of the walk.
pub proof fn lemma_words_walk(states: Seq<State>, ast: AST, lo: nat, exit: StateId, w: Seq<char>) -> (n:
    nat)
    requires
        fragment_at(states, ast, lo, Some(exit)),
        lo + size(ast) <= usize::MAX,
        is_word(ast, w),
    ensures
        walk(states, lo as int, (lo + size(ast)) as int, entry(ast, lo) as usize, w, exit, n),
    decreases ast, 0nat, w.len(),
{
    let hi = lo + size(ast);
    lemma_fragment_bounds(ast, lo);
    match ast {
        AST::Char(c) => {
            assert(walk(states, lo as int, hi as int, exit, w.skip(1), exit, 0));
            1
        },
        AST::AnyChar => {
            assert(walk(states, lo as int, hi as int, exit, w.skip(1), exit, 0));
            1
        },
        AST::Catenation(l, r) => {
            let mid = lo + size(*l);
            let k = choose|k: int|
                #[trigger] cut(k) && 0 <= k <= w.len() && is_word(*l, w.take(k)) && is_word(
                    *r,
                    w.skip(k),
                );
            let between = entry(*r, mid) as usize;
            lemma_fragment_bounds(*l, lo);
            let n1 = lemma_words_walk(states, *l, lo, between, w.take(k));
            let n2 = lemma_words_walk(states, *r, mid, exit, w.skip(k));
            let from = entry(*l, lo) as usize;
            lemma_walk_wider(states, lo as int, mid as int, from, w.take(k), between, n1, lo as int, hi as int, n1);
            lemma_walk_wider(states, mid as int, hi as int, between, w.skip(k), exit, n2, lo as int, hi as int, n2);
            lemma_walk_concat(states, lo as int, hi as int, from, w.take(k), between, n1, w.skip(k), exit, n2);
            assert(w.take(k) + w.skip(k) =~= w);
            n1 + n2
        },
        AST::Alternation(l, r) => {
            let mid = lo + size(*l);
            let split = mid + size(*r);
            lemma_fragment_bounds(*l, lo);
            lemma_fragment_bounds(*r, mid);
            if is_word(*l, w) {
                let n1 = lemma_words_walk(states, *l, lo, exit, w);
                lemma_walk_wider(states, lo as int, mid as int, entry(*l, lo) as usize, w, exit, n1, lo as int, hi as int, n1);
                n1 + 1
            } else {
                let n1 = lemma_words_walk(states, *r, mid, exit, w);
                lemma_walk_wider(states, mid as int, split as int, entry(*r, mid) as usize, w, exit, n1, lo as int, hi as int, n1);
                n1 + 1
            }
        },
        AST::Closure(x) => {
            lemma_star_walk(states, *x, lo, exit, w)
        },
        AST::OneOrMore(x) => {
            let split = (lo + size(*x)) as usize;
            let k = choose|k: int|
                #[trigger] cut(k) && 0 <= k <= w.len() && is_word(*x, w.take(k)) && is_words(
                    *x,
                    w.skip(k),
                );
            lemma_fragment_bounds(*x, lo);
            let from = entry(*x, lo) as usize;
            let n1 = lemma_words_walk(states, *x, lo, split, w.take(k));
            let n2 = lemma_star_walk(states, *x, lo, exit, w.skip(k));
            lemma_walk_wider(states, lo as int, split as int, from, w.take(k), split, n1, lo as int, hi as int, n1);
            lemma_walk_concat(states, lo as int, hi as int, from, w.take(k), split, n1, w.skip(k), exit, n2);
            assert(w.take(k) + w.skip(k) =~= w);
            n1 + n2
        },
    }
}

/// Every word made of words of `x` labels a walk from the split behind the
/// fragment for `x`, round through the fragment as often as it takes, and
/// out. The result bounds the length of the walk.
pub proof fn lemma_star_walk(states: Seq<State>, x: AST, lo: nat, exit: StateId, w: Seq<char>) -> (n:
    nat)
    requires
        fragment_at(states, x, lo, Some((lo + size(x)) as usize)),
        lo + size(x) + 1 <= usize::MAX,
        lo + size(x) < states.len(),
        states[(lo + size(x)) as int] == State::Split(Some(entry(x, lo) as usize), Some(exit)),
        is_words(x, w),
    ensures
        walk(states, lo as int, (lo + size(x) + 1) as int, (lo + size(x)) as usize, w, exit, n),
    decreases x, 1nat, w.len(),
{
    let split = (lo + size(x)) as usize;
    let hi = lo + size(x) + 1;
    let from = entry(x, lo) as usize;
    lemma_fragment_bounds(x, lo);
    if w.len() == 0 {
        assert(walk(states, lo as int, hi as int, exit, w, exit, 0));
        1
    } else {
        let k = choose|k: int|
            #[trigger] cut(k) && 0 < k <= w.len() && is_word(x, w.take(k)) && is_words(
                x,
                w.skip(k),
            );
        let n1 = lemma_words_walk(states, x, lo, split, w.take(k));
        let n2 = lemma_star_walk(states, x, lo, exit, w.skip(k));
        lemma_walk_wider(states, lo as int, split as int, from, w.take(k), split, n1, lo as int, hi as int, n1);
        lemma_walk_concat(states, lo as int, hi as int, from, w.take(k), split, n1, w.skip(k), exit, n2);
        assert(w.take(k) + w.skip(k) =~= w);
        n1 + n2 + 1
    }
}

/// Every walk through the fragment for `ast`, from its entry to its exit,
/// is labelled by a word of `ast`.
pub proof fn lemma_walk_words(
    states: Seq<State>,
    ast: AST,
    lo: nat,
    exit: StateId,
    w: Seq<char>,
    n: nat,
)
    requires
        fragment_at(states, ast, lo, Some(exit)),
        lo + size(ast) <= usize::MAX,
        !(lo <= exit < lo + size(ast)),
        walk(states, lo as int, (lo + size(ast)) as int, entry(ast, lo) as usize, w, exit, n),
    ensures
        is_word(ast, w),
    decreases ast, 0nat, n,
{
    let hi = lo + size(ast);
    lemma_fragment_bounds(ast, lo);
    match ast {
        AST::Char(c) => {
            assert(walk(states, lo as int, hi as int, exit, w.skip(1), exit, (n - 1) as nat));
            assert(w =~= seq![c]);
        },
        AST::AnyChar => {
            assert(walk(states, lo as int, hi as int, exit, w.skip(1), exit, (n - 1) as nat));
        },
        AST::Catenation(l, r) => {
            let mid = lo + size(*l);
            let between = entry(*r, mid) as usize;
            let from = entry(*l, lo) as usize;
            lemma_fragment_bounds(*l, lo);
            lemma_fragment_bounds(*r, mid);
            lemma_fragment_closed(states, *l, lo, between);
            lemma_fragment_closed(states, *r, mid, exit);
            let s = lemma_walk_split(states, lo as int, hi as int, from, w, exit, n, lo as int, mid as int, between);
            lemma_walk_words(states, *l, lo, between, w.take(s.0), s.1);
            let m = lemma_walk_narrow(states, lo as int, hi as int, between, w.skip(s.0), exit, s.2, mid as int, hi as int);
            lemma_walk_words(states, *r, mid, exit, w.skip(s.0), m);
            assert(cut(s.0));
        },
        AST::Alternation(l, r) => {
            let mid = lo + size(*l);
            let split = mid + size(*r);
            lemma_fragment_bounds(*l, lo);
            lemma_fragment_bounds(*r, mid);
            lemma_fragment_closed(states, *l, lo, exit);
            lemma_fragment_closed(states, *r, mid, exit);
            let first = entry(*l, lo) as usize;
            let second = entry(*r, mid) as usize;
            if walk(states, lo as int, hi as int, first, w, exit, (n - 1) as nat) {
                let m = lemma_walk_narrow(states, lo as int, hi as int, first, w, exit, (n - 1) as nat, lo as int, mid as int);
                lemma_walk_words(states, *l, lo, exit, w, m);
            } else {
                let m = lemma_walk_narrow(states, lo as int, hi as int, second, w, exit, (n - 1) as nat, mid as int, split as int);
                lemma_walk_words(states, *r, mid, exit, w, m);
            }
        },
        AST::Closure(x) => {
            lemma_walk_star(states, *x, lo, exit, w, n);
        },
        AST::OneOrMore(x) => {
            let split = (lo + size(*x)) as usize;
            let from = entry(*x, lo) as usize;
            lemma_fragment_bounds(*x, lo);
            lemma_fragment_closed(states, *x, lo, split);
            let s = lemma_walk_split(states, lo as int, hi as int, from, w, exit, n, lo as int, split as int, split);
            lemma_walk_words(states, *x, lo, split, w.take(s.0), s.1);
            lemma_walk_star(states, *x, lo, exit, w.skip(s.0), s.2);
            assert(cut(s.0));
        },
    }
}

/// Every walk from the split behind the fragment for `x`, round through the
/// fragment and out, is labelled by a word made of words of `x`.
pub proof fn lemma_walk_star(
    states: Seq<State>,
    x: AST,
    lo: nat,
    exit: StateId,
    w: Seq<char>,
    n: nat,
)
    requires
        fragment_at(states, x, lo, Some((lo + size(x)) as usize)),
        lo + size(x) + 1 <= usize::MAX,
        lo + size(x) < states.len(),
        states[(lo + size(x)) as int] == State::Split(Some(entry(x, lo) as usize), Some(exit)),
        !(lo <= exit <= lo + size(x)),
        walk(states, lo as int, (lo + size(x) + 1) as int, (lo + size(x)) as usize, w, exit, n),
    ensures
        is_words(x, w),
    decreases x, 1nat, n,
{
    let split = (lo + size(x)) as usize;
    let hi = lo + size(x) + 1;
    let from = entry(x, lo) as usize;
    lemma_fragment_bounds(x, lo);
    lemma_fragment_closed(states, x, lo, split);
    if walk(states, lo as int, hi as int, from, w, exit, (n - 1) as nat) {
        let s = lemma_walk_split(states, lo as int, hi as int, from, w, exit, (n - 1) as nat, lo as int, split as int, split);
        lemma_walk_words(states, x, lo, split, w.take(s.0), s.1);
        lemma_walk_star(states, x, lo, exit, w.skip(s.0), s.2);
        if s.0 == 0 {
            assert(w.skip(0) =~= w);
        } else {
            assert(cut(s.0));
        }
    } else {
        assert(walk(states, lo as int, hi as int, exit, w, exit, (n - 1) as nat));
    }
}

/// What a walk through the whole automaton reads, a run reads too.
pub proof fn lemma_walk_reaches(a: Automaton, p: StateId, w: Seq<char>, q: StateId, n: nat)
    requires
        walk(a.states, 0, a.states.len() as int, p, w, q, n),
    ensures
        a.reaches(p, w, q),
    decreases n,
{
    if p == q && w.len() == 0 {
        assert(a.eps_path(p, q, 0));
    } else {
        let m = (n - 1) as nat;
        let all = a.states.len() as int;
        match a.states[p as int] {
            State::Start(t) => {
                lemma_walk_reaches(a, t->0, w, q, m);
                assert(a.eps_path(t->0, t->0, 0));
                assert(a.eps_path(p, t->0, 1));
                a.lemma_eps_then_reaches(p, t->0, w, q);
            },
            State::Split(x, y) => {
                let t = if x is Some && walk(a.states, 0, all, x->0, w, q, m) {
                    x->0
                } else {
                    y->0
                };
                lemma_walk_reaches(a, t, w, q, m);
                assert(a.eps_path(t, t, 0));
                assert(a.eps_path(p, t, 1));
                a.lemma_eps_then_reaches(p, t, w, q);
            },
            State::Match(_, t) => {
                lemma_walk_reaches(a, t->0, w.skip(1), q, m);
                a.lemma_step_then_reaches(p, w[0], w.skip(1), q);
                assert(seq![w[0]] + w.skip(1) =~= w);
            },
            State::End => {},
        }
    }
}

/// A path of transitions that consume nothing is a walk that reads nothing.
pub proof fn lemma_eps_walk(a: Automaton, p: StateId, q: StateId, n: nat)
    requires
        a.eps_path(p, q, n),
    ensures
        walk(a.states, 0, a.states.len() as int, p, Seq::<char>::empty(), q, n),
    decreases n,
{
    if p != q {
        let m = (n - 1) as nat;
        match a.states[p as int] {
            State::Start(t) => {
                lemma_eps_walk(a, t->0, q, m);
            },
            State::Split(x, y) => {
                if x is Some && a.eps_path(x->0, q, m) {
                    lemma_eps_walk(a, x->0, q, m);
                } else {
                    lemma_eps_walk(a, y->0, q, m);
                }
            },
            _ => {},
        }
    }
}

/// What a run reads, a walk through the whole automaton reads too. The
/// result bounds the length of the walk.
pub proof fn lemma_reaches_walk(a: Automaton, p: StateId, w: Seq<char>, q: StateId) -> (n: nat)
    requires
        a.reaches(p, w, q),
    ensures
        walk(a.states, 0, a.states.len() as int, p, w, q, n),
    decreases w.len(),
{
    let all = a.states.len() as int;
    if w.len() == 0 {
        let n = choose|n: nat| a.eps_path(p, q, n);
        lemma_eps_walk(a, p, q, n);
        assert(w =~= Seq::<char>::empty());
        n
    } else {
        let r = choose|r: StateId|
            a.reaches(p, w.drop_last(), r) && #[trigger] a.steps(r, w.last()) && a.eps_reach(
                a.next_of(r),
                q,
            );
        let t = a.next_of(r);
        let n1 = lemma_reaches_walk(a, p, w.drop_last(), r);
        let n3 = choose|n: nat| a.eps_path(t, q, n);
        lemma_eps_walk(a, t, q, n3);
        let one = seq![w.last()];
        let none = Seq::<char>::empty();
        assert(one.skip(1) =~= none);
        assert(walk(a.states, 0, all, t, one.skip(1), t, 0));
        assert(walk(a.states, 0, all, r, one, t, 1));
        lemma_walk_concat(a.states, 0, all, r, one, t, 1, none, q, n3);
        lemma_walk_concat(a.states, 0, all, p, w.drop_last(), r, n1, one + none, q, 1 + n3);
        assert(w.drop_last() + (one + none) =~= w);
        n1 + 1 + n3
    }
}

/// The automaton compiled from `ast` accepts exactly the words of `ast`.
pub proof fn lemma_compiled_language(a: Automaton, ast: AST, w: Seq<char>)
    requires
        a.compiles(ast),
    ensures
        a.accepts_exact(w) <==> is_word(ast, w),
{
    let n = size(ast);
    let all = a.states.len() as int;
    let end = (n + 1) as usize;
    let from = entry(ast, 1) as usize;
    lemma_fragment_bounds(ast, 1);
    lemma_fragment_closed(a.states, ast, 1, end);
    if is_word(ast, w) {
        let m = lemma_words_walk(a.states, ast, 1, end, w);
        lemma_walk_wider(a.states, 1, (n + 1) as int, from, w, end, m, 0, all, m);
        assert(walk(a.states, 0, all, 0, w, end, m + 1));
        lemma_walk_reaches(a, 0, w, end, m + 1);
        assert(a.accepting(end));
    }
    if a.accepts_exact(w) {
        let q = choose|q: StateId| #[trigger] a.reaches(a.start, w, q) && a.accepting(q);
        assert(q == end) by {
            if 1 <= q < n + 1 {
                assert(stays_in(a.states[q as int], 1, (n + 1) as int, end));
            }
        }
        let m = lemma_reaches_walk(a, 0, w, end);
        assert(walk(a.states, 0, all, from, w, end, (m - 1) as nat));
        let s = lemma_walk_split(a.states, 0, all, from, w, end, (m - 1) as nat, 1, (n + 1) as int, end);
        assert(w.skip(s.0).len() == 0);
        assert(w.take(s.0) =~= w);
        lemma_walk_words(a.states, ast, 1, end, w, s.1);
    }
}

/// The automaton compiled from `ast` accepts a line exactly if some
/// contiguous part of the line is a word of `ast`.
pub proof fn lemma_compiled_accepts_line(a: Automaton, ast: AST, line: Seq<char>)
    requires
        a.compiles(ast),
    ensures
        a.accepts_line(line) <==> matches_within(ast, line),
{
    if a.accepts_line(line) {
        let i = choose|i: int| 0 <= i <= line.len() && #[trigger] a.matches_at(a.start, line, i);
        let j = choose|j: int|
            i <= j <= line.len() && #[trigger] a.accepts_from(a.start, line.subrange(i, j));
        lemma_compiled_language(a, ast, line.subrange(i, j));
    }
    if matches_within(ast, line) {
        let (i, j) = choose|i: int, j: int|
            0 <= i <= j <= line.len() && #[trigger] is_word(ast, line.subrange(i, j));
        lemma_compiled_language(a, ast, line.subrange(i, j));
        assert(a.accepts_from(a.start, line.subrange(i, j)));
        assert(a.matches_at(a.start, line, i));
    }
}

/// A pattern that has the empty word among its words matches every line.
pub proof fn lemma_empty_word_matches_every_line(a: Automaton, ast: AST, line: Seq<char>)
    requires
        a.compiles(ast),
        is_word(ast, Seq::<char>::empty()),
    ensures
        a.accepts_line(line),
{
    assert(line.subrange(0, 0) =~= Seq::<char>::empty());
    lemma_compiled_accepts_line(a, ast, line);
}

/// An automaton whose start state leads straight to an accepting state
/// accepts every line, the empty line included.
pub proof fn lemma_bare_automaton_accepts_every_line(a: Automaton, line: Seq<char>)
    requires
        a.start < a.states.len(),
        a.states[a.start as int] is Start,
        a.states[a.start as int]->Start_0 is Some,
        a.accepting(a.states[a.start as int]->Start_0->0),
    ensures
        a.accepts_line(line),
{
    let end = a.states[a.start as int]->Start_0->0;
    let none = line.subrange(0, 0);
    assert(a.eps_path(end, end, 0));
    assert(a.eps_path(a.start, end, 1));
    assert(a.reaches(a.start, none, end));
    assert(a.accepts_from(a.start, none));
    assert(a.matches_at(a.start, line, 0));
}

} // verus!
