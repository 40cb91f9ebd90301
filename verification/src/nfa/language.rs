//! What an automaton accepts: paths through its states, and the words that
//! label them.

use super::{label_matches, resolved, Automaton, State, StateId};
use vstd::prelude::*;

verus! {

impl Automaton {
    /// Whether `q` is `p` itself or can be had from `p` by at most `n`
    /// transitions that consume nothing.
    pub open spec fn eps_path(self, p: StateId, q: StateId, n: nat) -> bool
        decreases n,
    {
        p == q || (n > 0 && p < self.states.len() && match self.states[p as int] {
            State::Start(t) => t is Some && self.eps_path(t->0, q, (n - 1) as nat),
            State::Split(a, b) => (a is Some && self.eps_path(a->0, q, (n - 1) as nat)) || (b is Some
                && self.eps_path(b->0, q, (n - 1) as nat)),
            _ => false,
        })
    }

    /// Whether `q` lies in the epsilon-closure of `p`.
    pub open spec fn eps_reach(self, p: StateId, q: StateId) -> bool {
        exists|n: nat| self.eps_path(p, q, n)
    }

    /// Whether the state `r` has a transition that consumes `c`.
    pub open spec fn steps(self, r: StateId, c: char) -> bool {
        r < self.states.len() && match self.states[r as int] {
            State::Match(l, t) => t is Some && label_matches(l, c),
            _ => false,
        }
    }

    /// Where the consuming transition of the matching state `r` leads.
    pub open spec fn next_of(self, r: StateId) -> StateId {
        self.states[r as int]->Match_1->0
    }

    /// Whether the automaton, entered at `p`, can be in `q` when it has
    /// read exactly `w`.
    pub open spec fn reaches(self, p: StateId, w: Seq<char>, q: StateId) -> bool
        decreases w.len(),
    {
        if w.len() == 0 {
            self.eps_reach(p, q)
        } else {
            exists|r: StateId|
                self.reaches(p, w.drop_last(), r) && #[trigger] self.steps(r, w.last())
                    && self.eps_reach(self.next_of(r), q)
        }
    }

    /// Whether `q` is an accepting state.
    pub open spec fn accepting(self, q: StateId) -> bool {
        q < self.states.len() && self.states[q as int] is End
    }

    /// Whether the automaton, entered at `p`, accepts exactly the word `w`.
    pub open spec fn accepts_from(self, p: StateId, w: Seq<char>) -> bool {
        exists|q: StateId| #[trigger] self.reaches(p, w, q) && self.accepting(q)
    }

    /// Whether the automaton accepts exactly the word `w`.
    pub open spec fn accepts_exact(self, w: Seq<char>) -> bool {
        self.accepts_from(self.start, w)
    }

    /// Whether the automaton, entered at `p`, accepts a word that begins at
    /// index `from` of `line`.
    pub open spec fn matches_at(self, p: StateId, line: Seq<char>, from: int) -> bool {
        exists|j: int| from <= j <= line.len() && #[trigger] self.accepts_from(p, line.subrange(from, j))
    }

    /// Whether the automaton accepts some contiguous part of `line`, the
    /// empty one included.
    pub open spec fn accepts_line(self, line: Seq<char>) -> bool {
        exists|i: int| 0 <= i <= line.len() && #[trigger] self.matches_at(self.start, line, i)
    }

    /// Whether every epsilon transition out of `q` leads into `marks`.
    pub open spec fn closed_at(self, marks: Seq<bool>, q: int) -> bool {
        match self.states[q] {
            State::Start(t) => marks[t->0 as int],
            State::Split(a, b) => marks[a->0 as int] && marks[b->0 as int],
            _ => true,
        }
    }

    /// Whether some state of `seeds` has `q` in its epsilon-closure.
    pub open spec fn seeded(self, seeds: Seq<StateId>, q: StateId) -> bool {
        exists|k: int| 0 <= k < seeds.len() && self.eps_reach(#[trigger] seeds[k], q)
    }

    /// Whether the state `r`, one of the first `bound` states and marked in
    /// `marks`, leads to `t` by consuming `c`.
    pub open spec fn moves_by(self, marks: Seq<bool>, c: char, t: StateId, bound: nat, r: StateId) -> bool {
        r < bound && r < marks.len() && marks[r as int] && self.steps(r, c) && self.next_of(r) == t
    }

    /// Whether one of the first `bound` states, marked in `marks`, leads to
    /// `t` by consuming `c`.
    pub open spec fn moves(self, marks: Seq<bool>, c: char, t: StateId, bound: nat) -> bool {
        exists|r: StateId| #[trigger] self.moves_by(marks, c, t, bound, r)
    }

    /// An epsilon path stays an epsilon path when it is allowed more steps.
    pub proof fn lemma_eps_path_longer(self, p: StateId, q: StateId, n: nat, m: nat)
        requires
            self.eps_path(p, q, n),
            n <= m,
        ensures
            self.eps_path(p, q, m),
        decreases n,
    {
        if p != q {
            match self.states[p as int] {
                State::Start(t) => {
                    self.lemma_eps_path_longer(t->0, q, (n - 1) as nat, (m - 1) as nat);
                },
                State::Split(a, b) => {
                    if a is Some && self.eps_path(a->0, q, (n - 1) as nat) {
                        self.lemma_eps_path_longer(a->0, q, (n - 1) as nat, (m - 1) as nat);
                    } else {
                        self.lemma_eps_path_longer(b->0, q, (n - 1) as nat, (m - 1) as nat);
                    }
                },
                _ => {},
            }
        }
    }

    /// Two epsilon paths, one behind the other, make an epsilon path.
    pub proof fn lemma_eps_path_concat(self, p: StateId, q: StateId, r: StateId, n: nat, m: nat)
        requires
            self.eps_path(p, q, n),
            self.eps_path(q, r, m),
        ensures
            self.eps_path(p, r, n + m),
        decreases n,
    {
        if p == q {
            self.lemma_eps_path_longer(q, r, m, n + m);
        } else {
            match self.states[p as int] {
                State::Start(t) => {
                    self.lemma_eps_path_concat(t->0, q, r, (n - 1) as nat, m);
                },
                State::Split(a, b) => {
                    if a is Some && self.eps_path(a->0, q, (n - 1) as nat) {
                        self.lemma_eps_path_concat(a->0, q, r, (n - 1) as nat, m);
                    } else {
                        self.lemma_eps_path_concat(b->0, q, r, (n - 1) as nat, m);
                    }
                },
                _ => {},
            }
        }
    }

    /// The epsilon-closure is transitive.
    pub proof fn lemma_eps_reach_trans(self, p: StateId, q: StateId, r: StateId)
        requires
            self.eps_reach(p, q),
            self.eps_reach(q, r),
        ensures
            self.eps_reach(p, r),
    {
        let n = choose|n: nat| self.eps_path(p, q, n);
        let m = choose|m: nat| self.eps_path(q, r, m);
        self.lemma_eps_path_concat(p, q, r, n, m);
    }

    /// A run can go on through transitions that consume nothing.
    pub proof fn lemma_reaches_then_eps(self, p: StateId, w: Seq<char>, q: StateId, t: StateId)
        requires
            self.reaches(p, w, q),
            self.eps_reach(q, t),
        ensures
            self.reaches(p, w, t),
    {
        if w.len() == 0 {
            self.lemma_eps_reach_trans(p, q, t);
        } else {
            let r = choose|r: StateId|
                self.reaches(p, w.drop_last(), r) && #[trigger] self.steps(r, w.last())
                    && self.eps_reach(self.next_of(r), q);
            self.lemma_eps_reach_trans(self.next_of(r), q, t);
        }
    }

    /// A run can begin with transitions that consume nothing.
    pub proof fn lemma_eps_then_reaches(self, p: StateId, t: StateId, w: Seq<char>, q: StateId)
        requires
            self.eps_reach(p, t),
            self.reaches(t, w, q),
        ensures
            self.reaches(p, w, q),
        decreases w.len(),
    {
        if w.len() == 0 {
            self.lemma_eps_reach_trans(p, t, q);
        } else {
            let r = choose|r: StateId|
                self.reaches(t, w.drop_last(), r) && #[trigger] self.steps(r, w.last())
                    && self.eps_reach(self.next_of(r), q);
            self.lemma_eps_then_reaches(p, t, w.drop_last(), r);
        }
    }

    /// A run can begin with a transition that consumes a character.
    pub proof fn lemma_step_then_reaches(self, p: StateId, c: char, v: Seq<char>, q: StateId)
        requires
            self.steps(p, c),
            self.reaches(self.next_of(p), v, q),
        ensures
            self.reaches(p, seq![c] + v, q),
        decreases v.len(),
    {
        let w = seq![c] + v;
        if v.len() == 0 {
            assert(w.drop_last().len() == 0);
            assert(self.eps_path(p, p, 0));
            assert(self.reaches(p, w.drop_last(), p));
            assert(self.steps(p, w.last()));
        } else {
            let r = choose|r: StateId|
                self.reaches(self.next_of(p), v.drop_last(), r) && #[trigger] self.steps(r, v.last())
                    && self.eps_reach(self.next_of(r), q);
            self.lemma_step_then_reaches(p, c, v.drop_last(), r);
            assert(w.drop_last() =~= seq![c] + v.drop_last());
            assert(self.steps(r, w.last()));
        }
    }

    /// Once no state can be had by reading a word, none can be had by
    /// reading on: if the automaton, entered at `p`, can be in no state when
    /// it has read `line` from `from` up to `k`, it accepts nothing that
    /// begins at `from` and ends at `k` or later.
    pub proof fn lemma_dead_end(self, p: StateId, line: Seq<char>, from: int, k: int, j: int)
        requires
            0 <= from <= k <= j <= line.len(),
            forall|q: StateId|
                q < self.states.len() ==> !#[trigger] self.reaches(p, line.subrange(from, k), q),
        ensures
            forall|q: StateId|
                q < self.states.len() ==> !#[trigger] self.reaches(p, line.subrange(from, j), q),
            !self.accepts_from(p, line.subrange(from, j)),
        decreases j - k,
    {
        if j > k {
            self.lemma_dead_end(p, line, from, k, j - 1);
            let w = line.subrange(from, j);
            assert(w.len() > 0);
            assert(w.drop_last() =~= line.subrange(from, j - 1));
            assert forall|q: StateId| q < self.states.len() implies !#[trigger] self.reaches(
                p,
                w,
                q,
            ) by {
                if self.reaches(p, w, q) {
                    let r = choose|r: StateId|
                        self.reaches(p, w.drop_last(), r) && #[trigger] self.steps(r, w.last())
                            && self.eps_reach(self.next_of(r), q);
                    assert(false);
                }
            }
        }
    }

    /// A set of states that holds `p` and is closed under epsilon
    /// transitions holds the epsilon-closure of `p`.
    pub proof fn lemma_closed_holds_closure(
        self,
        marks: Seq<bool>,
        p: StateId,
        q: StateId,
        n: nat,
    )
        requires
            self.wf(),
            marks.len() == self.states.len(),
            p < self.states.len(),
            marks[p as int],
            forall|x: int| 0 <= x < marks.len() && marks[x] ==> #[trigger] self.closed_at(marks, x),
            self.eps_path(p, q, n),
        ensures
            q < self.states.len(),
            marks[q as int],
        decreases n,
    {
        if p != q {
            assert(self.closed_at(marks, p as int));
            assert(resolved(self.states[p as int], self.states.len()));
            match self.states[p as int] {
                State::Start(t) => {
                    self.lemma_closed_holds_closure(marks, t->0, q, (n - 1) as nat);
                },
                State::Split(a, b) => {
                    if self.eps_path(a->0, q, (n - 1) as nat) {
                        self.lemma_closed_holds_closure(marks, a->0, q, (n - 1) as nat);
                    } else {
                        self.lemma_closed_holds_closure(marks, b->0, q, (n - 1) as nat);
                    }
                },
                _ => {},
            }
        }
    }
}

/// How many entries of `s` are `false`.
pub open spec fn count_false(s: Seq<bool>) -> nat
    decreases s.len(),
{
    if s.len() == 0 {
        0
    } else {
        count_false(s.drop_last()) + if s.last() {
            0nat
        } else {
            1nat
        }
    }
}

/// Setting an entry that was `false` leaves one `false` fewer.
pub proof fn lemma_count_false_set(s: Seq<bool>, i: int)
    requires
        0 <= i < s.len(),
        !s[i],
    ensures
        count_false(s.update(i, true)) + 1 == count_false(s),
    decreases s.len(),
{
    let u = s.update(i, true);
    if i == s.len() - 1 {
        assert(u.drop_last() =~= s.drop_last());
    } else {
        lemma_count_false_set(s.drop_last(), i);
        assert(u.drop_last() =~= s.drop_last().update(i, true));
    }
}

} // verus!
