//! Running an automaton against a line: the set of states the automaton
//! can be in is carried along the line, one character at a time.

use super::language::{count_false, lemma_count_false_set};
use super::{resolved, Char, State, StateId, NFA};
use vstd::prelude::*;

verus! {

/// Marks the state `t` as visited and, if it was not yet, puts it on the
/// stack of states to look at.
fn visit(marks: &mut Vec<bool>, stack: &mut Vec<StateId>, t: StateId)
    requires
        t < old(marks)@.len(),
    ensures
        final(marks)@ == old(marks)@.update(t as int, true),
        old(marks)@[t as int] ==> final(stack)@ == old(stack)@ && final(marks)@ == old(marks)@,
        !old(marks)@[t as int] ==> final(stack)@ == old(stack)@.push(t) && count_false(
            final(marks)@,
        ) < count_false(old(marks)@),
{
    if !marks[t] {
        proof {
            lemma_count_false_set(marks@, t as int);
        }
        marks[t] = true;
        stack.push(t);
    } else {
        assert(marks@ =~= marks@.update(t as int, true));
    }
}

impl NFA {
    /// Whether the states marked in `marks` that are not on `stack` have
    /// their epsilon transitions marked too, the states on `stack` are
    /// marked, and every marked state lies in the closure of `seeds`.
    spec fn closing(&self, seeds: Seq<StateId>, marks: Seq<bool>, stack: Seq<StateId>) -> bool {
        &&& marks.len() == self@.states.len()
        &&& forall|k: int| 0 <= k < stack.len() ==> #[trigger] stack[k] < marks.len() && marks[stack[k] as int]
        &&& forall|q: usize| q < marks.len() && #[trigger] marks[q as int] ==> self@.seeded(seeds, q)
        &&& forall|q: usize|
            q < marks.len() && #[trigger] marks[q as int] ==> stack.contains(q) || self@.closed_at(
                marks,
                q as int,
            )
    }

    /// The epsilon-closure of `seeds`, as one mark per state.
    pub fn epsilon_closure(&self, seeds: &Vec<StateId>) -> (marks: Vec<bool>)
        requires
            forall|k: int| 0 <= k < seeds@.len() ==> seeds@[k] < self@.states.len(),
        ensures
            marks@.len() == self@.states.len(),
            forall|q: usize|
                q < marks@.len() ==> (#[trigger] marks@[q as int] <==> self@.seeded(seeds@, q)),
    {
        proof {
            use_type_invariant(self);
        }
        let n = self.states.len();
        let mut marks: Vec<bool> = Vec::new();
        while marks.len() < n
            invariant
                marks@.len() <= n,
                forall|q: int| 0 <= q < marks@.len() ==> !marks@[q],
            decreases n - marks@.len(),
        {
            marks.push(false);
        }
        let mut stack: Vec<StateId> = Vec::new();
        let mut i: usize = 0;
        while i < seeds.len()
            invariant
                i <= seeds@.len(),
                n == self@.states.len(),
                self@.wf(),
                forall|k: int| 0 <= k < seeds@.len() ==> seeds@[k] < self@.states.len(),
                self.closing(seeds@, marks@, stack@),
                forall|k: int| 0 <= k < i ==> marks@[#[trigger] seeds@[k] as int],
            decreases seeds@.len() - i,
        {
            let s = seeds[i];
            let ghost m0 = marks@;
            let ghost st0 = stack@;
            visit(&mut marks, &mut stack, s);
            proof {
                assert(self@.eps_path(s, s, 0));
                assert(self@.seeded(seeds@, s));
                self.lemma_closing_grows(seeds@, m0, st0, marks@, stack@, s);
            }
            i = i + 1;
        }
        while stack.len() > 0
            invariant
                n == self@.states.len(),
                self@.wf(),
                forall|k: int| 0 <= k < seeds@.len() ==> seeds@[k] < self@.states.len(),
                self.closing(seeds@, marks@, stack@),
                forall|k: int| 0 <= k < seeds@.len() ==> marks@[#[trigger] seeds@[k] as int],
            decreases count_false(marks@), stack@.len(),
        {
            let ghost m0 = marks@;
            let ghost st0 = stack@;
            let p = stack.pop().unwrap();
            assert(st0[st0.len() - 1] == p);
            assert(resolved(self@.states[p as int], self@.states.len()));
            let ghost st1 = stack@;
            match self.states[p] {
                State::Start(Some(t)) => {
                    visit(&mut marks, &mut stack, t);
                    proof {
                        assert(self@.eps_path(t, t, 0));
                        assert(self@.eps_path(p, t, 1));
                        self.lemma_seeded_step(seeds@, p, t);
                        assert forall|q: usize|
                            q < marks@.len() && #[trigger] marks@[q as int] && !m0[q as int] implies stack@.contains(
                            q,
                        ) by {
                            assert(stack@[st1.len() as int] == t);
                        }
                        self.lemma_closing_step(seeds@, m0, st0, marks@, stack@, p);
                    }
                },
                State::Split(Some(a), Some(b)) => {
                    visit(&mut marks, &mut stack, a);
                    let ghost m2 = marks@;
                    let ghost st2 = stack@;
                    visit(&mut marks, &mut stack, b);
                    proof {
                        assert(self@.eps_path(a, a, 0));
                        assert(self@.eps_path(b, b, 0));
                        assert(self@.eps_path(p, a, 1));
                        assert(self@.eps_path(p, b, 1));
                        self.lemma_seeded_step(seeds@, p, a);
                        self.lemma_seeded_step(seeds@, p, b);
                        assert forall|q: usize|
                            q < marks@.len() && #[trigger] marks@[q as int] && !m0[q as int] implies stack@.contains(
                            q,
                        ) by {
                            if q == a && !m0[a as int] {
                                assert(st2[st1.len() as int] == a);
                                assert(stack@[st1.len() as int] == a);
                            } else {
                                assert(q == b);
                                assert(!m2[b as int]);
                                assert(stack@[st2.len() as int] == b);
                            }
                        }
                        self.lemma_closing_step(seeds@, m0, st0, marks@, stack@, p);
                    }
                },
                _ => {
                    proof {
                        self.lemma_closing_step(seeds@, m0, st0, marks@, stack@, p);
                    }
                },
            }
        }
        proof {
            assert forall|q: usize| q < marks@.len() implies (#[trigger] marks@[q as int]
                <==> self@.seeded(seeds@, q)) by {
                if self@.seeded(seeds@, q) {
                    let k = choose|k: int|
                        0 <= k < seeds@.len() && self@.eps_reach(#[trigger] seeds@[k], q);
                    let m = choose|m: nat| self@.eps_path(seeds@[k], q, m);
                    assert forall|x: int| 0 <= x < marks@.len() && marks@[x] implies #[trigger] self@.closed_at(
                        marks@,
                        x,
                    ) by {
                        assert(marks@[x as usize as int]);
                        assert(!stack@.contains(x as usize));
                    }
                    self@.lemma_closed_holds_closure(marks@, seeds@[k], q, m);
                }
            }
        }
        marks
    }

    /// Whether an accepting state is marked.
    fn has_end(&self, marks: &Vec<bool>) -> (r: bool)
        requires
            marks@.len() == self@.states.len(),
        ensures
            r == exists|q: usize| q < marks@.len() && #[trigger] marks@[q as int] && self@.accepting(q),
    {
        let n = self.states.len();
        let mut q: usize = 0;
        while q < n
            invariant
                q <= n,
                n == self@.states.len(),
                marks@.len() == n,
                forall|x: usize| x < q && #[trigger] marks@[x as int] ==> !self@.accepting(x),
            decreases n - q,
        {
            if marks[q] {
                match self.states[q] {
                    State::End => {
                        return true;
                    },
                    _ => {},
                }
            }
            q = q + 1;
        }
        false
    }

    /// The states that the marked states lead to by consuming `c`.
    fn advance(&self, marks: &Vec<bool>, c: char) -> (seeds: Vec<StateId>)
        requires
            marks@.len() == self@.states.len(),
        ensures
            forall|k: int| 0 <= k < seeds@.len() ==> seeds@[k] < self@.states.len(),
            forall|t: StateId| #[trigger] seeds@.contains(t) <==> self@.moves(marks@, c, t, marks@.len()),
    {
        proof {
            use_type_invariant(self);
        }
        let n = self.states.len();
        let mut seeds: Vec<StateId> = Vec::new();
        let mut q: usize = 0;
        while q < n
            invariant
                q <= n,
                n == self@.states.len(),
                marks@.len() == n,
                self@.wf(),
                forall|k: int| 0 <= k < seeds@.len() ==> seeds@[k] < self@.states.len(),
                forall|t: StateId| #[trigger] seeds@.contains(t) <==> self@.moves(marks@, c, t, q as nat),
            decreases n - q,
        {
            let ghost before = seeds@;
            let mut added: bool = false;
            if marks[q] {
                match self.states[q] {
                    State::Match(l, Some(t)) => {
                        let fits = match l {
                            Char::Literal(x) => x == c,
                            Char::Any => true,
                        };
                        if fits {
                            assert(resolved(self@.states[q as int], self@.states.len()));
                            seeds.push(t);
                            added = true;
                        }
                    },
                    _ => {},
                }
            }
            proof {
                assert(resolved(self@.states[q as int], self@.states.len()));
                let hit = marks@[q as int] && self@.steps(q, c);
                assert(added == hit);
                assert forall|t: StateId| #[trigger] seeds@.contains(t) <==> self@.moves(
                    marks@,
                    c,
                    t,
                    (q + 1) as nat,
                ) by {
                    if seeds@.contains(t) {
                        let k = choose|k: int| 0 <= k < seeds@.len() && seeds@[k] == t;
                        if k < before.len() {
                            assert(before[k] == t);
                            assert(before.contains(t));
                            let r = choose|r: StateId| #[trigger] self@.moves_by(marks@, c, t, q as nat, r);
                            assert(self@.moves_by(marks@, c, t, (q + 1) as nat, r));
                        } else {
                            assert(self@.moves_by(marks@, c, t, (q + 1) as nat, q));
                        }
                    }
                    if self@.moves(marks@, c, t, (q + 1) as nat) {
                        let r = choose|r: StateId| #[trigger] self@.moves_by(marks@, c, t, (q + 1) as nat, r);
                        if r < q {
                            assert(self@.moves_by(marks@, c, t, q as nat, r));
                            assert(before.contains(t));
                            let k = choose|k: int| 0 <= k < before.len() && before[k] == t;
                            assert(seeds@[k] == t);
                        } else {
                            assert(r == q);
                            assert(seeds@[before.len() as int] == t);
                        }
                    }
                }
            }
            q = q + 1;
        }
        seeds
    }

    /// Runs the automaton, entered at `start_state_id`, on `chars` from
    /// index `chars_index` on, and tells whether it accepts a word that
    /// begins there. The run keeps the set of states the automaton can be
    /// in; it never follows one path and comes back for another. It ends
    /// as soon as an accepting state is in the set, or no state is.
    pub fn traverse(&self, chars: &Vec<char>, chars_index: usize, start_state_id: StateId) -> (r:
        bool)
        requires
            chars_index <= chars@.len(),
            start_state_id < self@.states.len(),
        ensures
            r == self@.matches_at(start_state_id, chars@, chars_index as int),
    {
        let ghost a = self@;
        let ghost p = start_state_id;
        let ghost from = chars_index as int;
        let mut seeds: Vec<StateId> = Vec::new();
        seeds.push(start_state_id);
        let mut cur = self.epsilon_closure(&seeds);
        let mut k = chars_index;
        proof {
            assert(chars@.subrange(from, from).len() == 0);
            assert forall|q: usize| q < cur@.len() implies (#[trigger] cur@[q as int] <==> a.reaches(
                p,
                chars@.subrange(from, from),
                q,
            )) by {
                if a.seeded(seeds@, q) {
                    let i = choose|i: int| 0 <= i < seeds@.len() && a.eps_reach(#[trigger] seeds@[i], q);
                    assert(seeds@[i] == p);
                }
                if a.eps_reach(p, q) {
                    assert(seeds@[0] == p);
                }
            }
        }
        loop
            invariant
                a == self@,
                p == start_state_id,
                from == chars_index,
                from <= k <= chars@.len(),
                cur@.len() == a.states.len(),
                forall|q: usize|
                    q < cur@.len() ==> (#[trigger] cur@[q as int] <==> a.reaches(
                        p,
                        chars@.subrange(from, k as int),
                        q,
                    )),
                forall|j: int| from <= j < k ==> !#[trigger] a.accepts_from(p, chars@.subrange(from, j)),
            decreases chars@.len() - k,
        {
            let ghost w = chars@.subrange(from, k as int);
            if self.has_end(&cur) {
                proof {
                    let q = choose|q: usize|
                        q < cur@.len() && #[trigger] cur@[q as int] && a.accepting(q);
                    assert(a.reaches(p, w, q));
                    assert(a.accepts_from(p, w));
                }
                return true;
            }
            proof {
                if a.accepts_from(p, w) {
                    let q = choose|q: StateId| #[trigger] a.reaches(p, w, q) && a.accepting(q);
                    assert(cur@[q as int]);
                }
            }
            if k >= chars.len() {
                proof {
                    if a.matches_at(p, chars@, from) {
                        let j = choose|j: int|
                            from <= j <= chars@.len() && #[trigger] a.accepts_from(
                                p,
                                chars@.subrange(from, j),
                            );
                        assert(false);
                    }
                }
                return false;
            }
            let c = chars[k];
            let next_seeds = self.advance(&cur, c);
            let ghost w2 = chars@.subrange(from, k + 1);
            proof {
                assert(w2.len() > 0);
                assert(w2.drop_last() =~= w);
                assert(w2.last() == c);
                assert forall|q: usize| q < a.states.len() implies (a.seeded(next_seeds@, q)
                    <==> #[trigger] a.reaches(p, w2, q)) by {
                    if a.seeded(next_seeds@, q) {
                        let i = choose|i: int|
                            0 <= i < next_seeds@.len() && a.eps_reach(#[trigger] next_seeds@[i], q);
                        let t = next_seeds@[i];
                        assert(next_seeds@.contains(t));
                        let r = choose|r: StateId| #[trigger] a.moves_by(cur@, c, t, cur@.len(), r);
                        assert(cur@[r as int]);
                        assert(a.reaches(p, w2.drop_last(), r));
                        assert(a.steps(r, w2.last()));
                        assert(a.reaches(p, w2, q));
                    }
                    if a.reaches(p, w2, q) {
                        let r = choose|r: StateId|
                            a.reaches(p, w2.drop_last(), r) && #[trigger] a.steps(r, w2.last())
                                && a.eps_reach(a.next_of(r), q);
                        assert(cur@[r as int]);
                        let t = a.next_of(r);
                        assert(a.moves_by(cur@, c, t, cur@.len(), r));
                        assert(next_seeds@.contains(t));
                        let i = choose|i: int| 0 <= i < next_seeds@.len() && next_seeds@[i] == t;
                        assert(a.eps_reach(next_seeds@[i], q));
                        assert(a.seeded(next_seeds@, q));
                    }
                }
            }
            if next_seeds.len() == 0 {
                proof {
                    assert forall|j: int| from <= j <= chars@.len() implies !#[trigger] a.accepts_from(
                        p,
                        chars@.subrange(from, j),
                    ) by {
                        if j > k {
                            a.lemma_dead_end(p, chars@, from, k + 1, j);
                        }
                    }
                }
                return false;
            }
            let next = self.epsilon_closure(&next_seeds);
            cur = next;
            k = k + 1;
        }
    }

    /// A state that an epsilon transition leads to from a state in the
    /// closure of `seeds` is in that closure too.
    proof fn lemma_seeded_step(&self, seeds: Seq<StateId>, p: StateId, t: StateId)
        requires
            self@.seeded(seeds, p),
            self@.eps_path(p, t, 1),
        ensures
            self@.seeded(seeds, t),
    {
        let k = choose|k: int| 0 <= k < seeds.len() && self@.eps_reach(#[trigger] seeds[k], p);
        self@.lemma_eps_reach_trans(seeds[k], p, t);
    }

    /// Visiting a state that is in the closure of `seeds` keeps the
    /// bookkeeping of a closure computation in order.
    proof fn lemma_closing_grows(
        &self,
        seeds: Seq<StateId>,
        m0: Seq<bool>,
        st0: Seq<StateId>,
        m1: Seq<bool>,
        st1: Seq<StateId>,
        s: StateId,
    )
        requires
            self@.wf(),
            self.closing(seeds, m0, st0),
            s < m0.len(),
            self@.seeded(seeds, s),
            m1 == m0.update(s as int, true),
            m0[s as int] ==> st1 == st0,
            !m0[s as int] ==> st1 == st0.push(s),
        ensures
            self.closing(seeds, m1, st1),
    {
        assert forall|k: int| 0 <= k < st1.len() implies #[trigger] st1[k] < m1.len() && m1[st1[k] as int] by {
            if k < st0.len() {
                assert(st0[k] < m0.len() && m0[st0[k] as int]);
            }
        }
        assert forall|q: usize| q < m1.len() && #[trigger] m1[q as int] implies st1.contains(q)
            || self@.closed_at(m1, q as int) by {
            if q == s && !m0[s as int] {
                assert(st1[st0.len() as int] == s);
            } else {
                assert(m0[q as int]);
                if st0.contains(q) {
                    let k = choose|k: int| 0 <= k < st0.len() && st0[k] == q;
                    assert(st1[k] == q);
                } else {
                    assert(self@.closed_at(m0, q as int));
                    assert(resolved(self@.states[q as int], self@.states.len()));
                }
            }
        }
        assert forall|q: usize| q < m1.len() && #[trigger] m1[q as int] implies self@.seeded(
            seeds,
            q,
        ) by {
            if q != s {
                assert(m0[q as int]);
            }
        }
    }

    /// Taking `p` off the stack and visiting what its epsilon transitions
    /// lead to keeps the bookkeeping of a closure computation in order.
    proof fn lemma_closing_step(
        &self,
        seeds: Seq<StateId>,
        m0: Seq<bool>,
        st0: Seq<StateId>,
        m1: Seq<bool>,
        st1: Seq<StateId>,
        p: StateId,
    )
        requires
            self@.wf(),
            self.closing(seeds, m0, st0),
            st0.len() > 0,
            p == st0.last(),
            m1.len() == m0.len(),
            forall|q: int| 0 <= q < m0.len() && m0[q] ==> #[trigger] m1[q],
            forall|q: usize| q < m1.len() && #[trigger] m1[q as int] ==> self@.seeded(seeds, q),
            forall|q: usize|
                q < m1.len() && #[trigger] m1[q as int] && !m0[q as int] ==> st1.contains(q),
            forall|k: int| 0 <= k < st0.len() - 1 ==> st1.len() > k && #[trigger] st1[k] == st0[k],
            forall|k: int| 0 <= k < st1.len() ==> #[trigger] st1[k] < m1.len() && m1[st1[k] as int],
            self@.closed_at(m1, p as int),
        ensures
            self.closing(seeds, m1, st1),
    {
        assert forall|q: usize| q < m1.len() && #[trigger] m1[q as int] implies st1.contains(q)
            || self@.closed_at(m1, q as int) by {
            if !m0[q as int] {
                assert(st1.contains(q));
            } else if q != p {
                if st0.contains(q) {
                    let k = choose|k: int| 0 <= k < st0.len() && st0[k] == q;
                    assert(st1[k] == q);
                } else {
                    assert(self@.closed_at(m0, q as int));
                    assert(resolved(self@.states[q as int], self@.states.len()));
                    match self@.states[q as int] {
                        State::Start(t) => {
                            assert(m1[t->0 as int]);
                        },
                        State::Split(a, b) => {
                            assert(m1[a->0 as int]);
                            assert(m1[b->0 as int]);
                        },
                        _ => {},
                    }
                }
            }
        }
    }
}

} // verus!
