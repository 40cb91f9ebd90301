//! Compiling a syntax tree into an automaton: a fragment per node of the
//! tree, built bottom-up in one arena and wired together.

use super::{resolved, Automaton, Char, State, StateId, NFA};
use super::thompson::{lemma_compiled_accepts_line, matches_within};
use crate::parser::AST;
use vstd::prelude::*;

verus! {

/// The state `s` with its loose end bound to `to`. Of a split only the
/// second transition is ever loose.
pub open spec fn bound_to(s: State, to: StateId) -> State {
    match s {
        State::Start(_) => State::Start(Some(to)),
        State::Match(l, _) => State::Match(l, Some(to)),
        State::Split(a, _) => State::Split(a, Some(to)),
        State::End => State::End,
    }
}

/// The number of states that the fragment for `ast` takes.
pub open spec fn size(ast: AST) -> nat
    decreases ast,
{
    match ast {
        AST::Char(_) => 1,
        AST::AnyChar => 1,
        AST::Catenation(l, r) => size(*l) + size(*r),
        AST::Alternation(l, r) => size(*l) + size(*r) + 1,
        AST::Closure(x) => size(*x) + 1,
        AST::OneOrMore(x) => size(*x) + 1,
    }
}

/// The state at which the fragment for `ast` is entered, when the fragment
/// takes the states from `lo` on.
pub open spec fn entry(ast: AST, lo: nat) -> nat
    decreases ast,
{
    match ast {
        AST::Char(_) => lo,
        AST::AnyChar => lo,
        AST::Catenation(l, _) => entry(*l, lo),
        AST::Alternation(l, r) => lo + size(*l) + size(*r),
        AST::Closure(x) => lo + size(*x),
        AST::OneOrMore(x) => entry(*x, lo),
    }
}

/// The states whose loose end leaves the fragment for `ast`, when the
/// fragment takes the states from `lo` on.
pub open spec fn loose_ends(ast: AST, lo: nat) -> Seq<StateId>
    decreases ast,
{
    match ast {
        AST::Char(_) => seq![lo as usize],
        AST::AnyChar => seq![lo as usize],
        AST::Catenation(l, r) => loose_ends(*r, lo + size(*l)),
        AST::Alternation(l, r) => loose_ends(*l, lo) + loose_ends(*r, lo + size(*l)),
        AST::Closure(x) => seq![(lo + size(*x)) as usize],
        AST::OneOrMore(x) => seq![(lo + size(*x)) as usize],
    }
}

/// Whether the states from `lo` on are the fragment for `ast`, with every
/// loose end holding `exit`:
///
/// - a character or the dot is one matching state;
/// - a catenation is the left fragment, leaving into the entry of the
///   right one, followed by the right fragment;
/// - an alternation is both fragments followed by a split into their
///   entries;
/// - a closure and a one-or-more are the inner fragment, leaving into a
///   split that follows it; the split goes back into the inner entry and,
///   as the loose end, out.
pub open spec fn fragment_at(states: Seq<State>, ast: AST, lo: nat, exit: Option<StateId>) -> bool
    decreases ast,
{
    &&& lo + size(ast) <= states.len()
    &&& match ast {
        AST::Char(c) => states[lo as int] == State::Match(Char::Literal(c), exit),
        AST::AnyChar => states[lo as int] == State::Match(Char::Any, exit),
        AST::Catenation(l, r) => {
            let mid = lo + size(*l);
            &&& fragment_at(states, *l, lo, Some(entry(*r, mid) as usize))
            &&& fragment_at(states, *r, mid, exit)
        },
        AST::Alternation(l, r) => {
            let mid = lo + size(*l);
            let split = mid + size(*r);
            &&& fragment_at(states, *l, lo, exit)
            &&& fragment_at(states, *r, mid, exit)
            &&& states[split as int] == State::Split(
                Some(entry(*l, lo) as usize),
                Some(entry(*r, mid) as usize),
            )
        },
        AST::Closure(x) => {
            let split = lo + size(*x);
            &&& fragment_at(states, *x, lo, Some(split as usize))
            &&& states[split as int] == State::Split(Some(entry(*x, lo) as usize), exit)
        },
        AST::OneOrMore(x) => {
            let split = lo + size(*x);
            &&& fragment_at(states, *x, lo, Some(split as usize))
            &&& states[split as int] == State::Split(Some(entry(*x, lo) as usize), exit)
        },
    }
}

/// The entry and the loose ends of a fragment lie inside it.
pub proof fn lemma_fragment_bounds(ast: AST, lo: nat)
    ensures
        size(ast) >= 1,
        lo <= entry(ast, lo) < lo + size(ast),
        loose_ends(ast, lo).len() >= 1,
        lo + size(ast) <= usize::MAX ==> forall|k: int|
            0 <= k < loose_ends(ast, lo).len() ==> lo <= #[trigger] loose_ends(ast, lo)[k] < lo
                + size(ast),
    decreases ast,
{
    match ast {
        AST::Char(_) => {},
        AST::AnyChar => {},
        AST::Catenation(l, r) => {
            lemma_fragment_bounds(*l, lo);
            lemma_fragment_bounds(*r, lo + size(*l));
        },
        AST::Alternation(l, r) => {
            lemma_fragment_bounds(*l, lo);
            lemma_fragment_bounds(*r, lo + size(*l));
        },
        AST::Closure(x) => {
            lemma_fragment_bounds(*x, lo);
        },
        AST::OneOrMore(x) => {
            lemma_fragment_bounds(*x, lo);
        },
    }
}

/// A fragment depends on its own states only.
pub proof fn lemma_fragment_frame(
    before: Seq<State>,
    after: Seq<State>,
    ast: AST,
    lo: nat,
    exit: Option<StateId>,
)
    requires
        fragment_at(before, ast, lo, exit),
        lo + size(ast) <= after.len(),
        forall|q: int| lo <= q < lo + size(ast) ==> #[trigger] after[q] == before[q],
    ensures
        fragment_at(after, ast, lo, exit),
    decreases ast,
{
    match ast {
        AST::Char(_) => {},
        AST::AnyChar => {},
        AST::Catenation(l, r) => {
            let mid = lo + size(*l);
            lemma_fragment_frame(before, after, *l, lo, Some(entry(*r, mid) as usize));
            lemma_fragment_frame(before, after, *r, mid, exit);
        },
        AST::Alternation(l, r) => {
            let mid = lo + size(*l);
            lemma_fragment_frame(before, after, *l, lo, exit);
            lemma_fragment_frame(before, after, *r, mid, exit);
        },
        AST::Closure(x) => {
            lemma_fragment_frame(before, after, *x, lo, Some((lo + size(*x)) as usize));
        },
        AST::OneOrMore(x) => {
            lemma_fragment_frame(before, after, *x, lo, Some((lo + size(*x)) as usize));
        },
    }
}

/// Binding every loose end of an open fragment to `to` closes it: it then
/// leaves into `to`.
pub proof fn lemma_fragment_join(
    before: Seq<State>,
    after: Seq<State>,
    ast: AST,
    lo: nat,
    to: StateId,
)
    requires
        fragment_at(before, ast, lo, None),
        lo + size(ast) <= after.len(),
        lo + size(ast) <= usize::MAX,
        forall|q: usize|
            lo <= q < lo + size(ast) ==> #[trigger] after[q as int] == if loose_ends(
                ast,
                lo,
            ).contains(q) {
                bound_to(before[q as int], to)
            } else {
                before[q as int]
            },
    ensures
        fragment_at(after, ast, lo, Some(to)),
    decreases ast,
{
    match ast {
        AST::Char(_) => {
            assert(loose_ends(ast, lo)[0] == lo as usize);
        },
        AST::AnyChar => {
            assert(loose_ends(ast, lo)[0] == lo as usize);
        },
        AST::Catenation(l, r) => {
            let mid = lo + size(*l);
            lemma_fragment_bounds(*l, lo);
            lemma_fragment_bounds(*r, mid);
            lemma_fragment_frame(before, after, *l, lo, Some(entry(*r, mid) as usize));
            lemma_fragment_join(before, after, *r, mid, to);
        },
        AST::Alternation(l, r) => {
            let mid = lo + size(*l);
            let ends_l = loose_ends(*l, lo);
            let ends_r = loose_ends(*r, mid);
            lemma_fragment_bounds(*l, lo);
            lemma_fragment_bounds(*r, mid);
            assert forall|q: usize| #[trigger]
                (ends_l + ends_r).contains(q) == (ends_l.contains(q) || ends_r.contains(q)) by {
                if (ends_l + ends_r).contains(q) {
                    let k = choose|k: int| 0 <= k < (ends_l + ends_r).len() && (ends_l + ends_r)[k] == q;
                    if k >= ends_l.len() {
                        assert(ends_r[k - ends_l.len()] == q);
                    } else {
                        assert(ends_l[k] == q);
                    }
                }
                if ends_l.contains(q) {
                    let k = choose|k: int| 0 <= k < ends_l.len() && ends_l[k] == q;
                    assert((ends_l + ends_r)[k] == q);
                }
                if ends_r.contains(q) {
                    let k = choose|k: int| 0 <= k < ends_r.len() && ends_r[k] == q;
                    assert((ends_l + ends_r)[ends_l.len() + k] == q);
                }
            }
            lemma_fragment_join(before, after, *l, lo, to);
            lemma_fragment_join(before, after, *r, mid, to);
            let split = mid + size(*r);
            assert(after[split as usize as int] == before[split as int]);
        },
        AST::Closure(x) => {
            let split = lo + size(*x);
            lemma_fragment_bounds(*x, lo);
            assert(loose_ends(ast, lo)[0] == split as usize);
            lemma_fragment_frame(before, after, *x, lo, Some(split as usize));
        },
        AST::OneOrMore(x) => {
            let split = lo + size(*x);
            lemma_fragment_bounds(*x, lo);
            assert(loose_ends(ast, lo)[0] == split as usize);
            lemma_fragment_frame(before, after, *x, lo, Some(split as usize));
        },
    }
}

/// In a fragment whose loose ends are bound to a state that exists, every
/// transition is bound to a state that exists.
pub proof fn lemma_fragment_resolved(states: Seq<State>, ast: AST, lo: nat, exit: StateId)
    requires
        fragment_at(states, ast, lo, Some(exit)),
        exit < states.len(),
        states.len() <= usize::MAX,
    ensures
        forall|q: int| lo <= q < lo + size(ast) ==> resolved(#[trigger] states[q], states.len()),
    decreases ast,
{
    lemma_fragment_bounds(ast, lo);
    match ast {
        AST::Char(_) => {},
        AST::AnyChar => {},
        AST::Catenation(l, r) => {
            let mid = lo + size(*l);
            lemma_fragment_bounds(*r, mid);
            lemma_fragment_resolved(states, *l, lo, entry(*r, mid) as usize);
            lemma_fragment_resolved(states, *r, mid, exit);
        },
        AST::Alternation(l, r) => {
            let mid = lo + size(*l);
            lemma_fragment_bounds(*l, lo);
            lemma_fragment_bounds(*r, mid);
            lemma_fragment_resolved(states, *l, lo, exit);
            lemma_fragment_resolved(states, *r, mid, exit);
        },
        AST::Closure(x) => {
            lemma_fragment_bounds(*x, lo);
            lemma_fragment_resolved(states, *x, lo, (lo + size(*x)) as usize);
        },
        AST::OneOrMore(x) => {
            lemma_fragment_bounds(*x, lo);
            lemma_fragment_resolved(states, *x, lo, (lo + size(*x)) as usize);
        },
    }
}

/// The automaton of a syntax tree is ready to run.
pub proof fn lemma_compiled_wf(a: Automaton, ast: AST)
    requires
        a.compiles(ast),
    ensures
        a.wf(),
{
    lemma_fragment_bounds(ast, 1);
    lemma_fragment_resolved(a.states, ast, 1, (size(ast) + 1) as usize);
}

/// A piece of an automaton under construction: where it is entered, and
/// the states whose loose end is still to be bound.
#[derive(Debug)]
pub struct Fragment {
    pub start: StateId,
    pub ends: Vec<StateId>,
}

/// An arena of states that only grows while an automaton is built.
pub struct Builder {
    pub states: Vec<State>,
}

/// The length of a vector fits its index type.
pub proof fn lemma_len_fits<T>(v: &Vec<T>)
    ensures
        v@.len() <= usize::MAX,
{
    assert(v@.len() == v.len());
}

impl Builder {
    /// An empty arena.
    pub fn new() -> (b: Builder)
        ensures
            b.states@.len() == 0,
    {
        Builder { states: Vec::new() }
    }

    /// Adds a state and returns its id.
    pub fn add_state(&mut self, state: State) -> (id: StateId)
        ensures
            final(self).states@ == old(self).states@.push(state),
            id == old(self).states@.len(),
    {
        let idx = self.states.len();
        self.states.push(state);
        idx
    }

    /// The fragment for `ast`, built from new states at the end of the
    /// arena, with all its loose ends open. What was in the arena stays as
    /// it is.
    pub fn gen_fragment(&mut self, ast: &AST) -> (f: Fragment)
        ensures
            final(self).states@.len() == old(self).states@.len() + size(*ast),
            final(self).states@.take(old(self).states@.len() as int) == old(self).states@,
            fragment_at(final(self).states@, *ast, old(self).states@.len(), None),
            f.start == entry(*ast, old(self).states@.len()),
            f.ends@ == loose_ends(*ast, old(self).states@.len()),
        decreases *ast,
    {
        let ghost lo = self.states@.len();
        let ghost s0 = self.states@;
        match ast {
            AST::AnyChar => {
                let state = self.add_state(State::Match(Char::Any, None));
                assert(self.states@.take(lo as int) =~= s0);
                Fragment { start: state, ends: vec![state] }
            },
            AST::Char(c) => {
                let state = self.add_state(State::Match(Char::Literal(*c), None));
                assert(self.states@.take(lo as int) =~= s0);
                Fragment { start: state, ends: vec![state] }
            },
            AST::Catenation(lhs, rhs) => {
                let fragment_lhs = self.gen_fragment(lhs);
                let ghost s1 = self.states@;
                let fragment_rhs = self.gen_fragment(rhs);
                let ghost s2 = self.states@;
                let ghost mid = lo + size(**lhs);
                proof {
                    lemma_fragment_bounds(**lhs, lo);
                    lemma_fragment_bounds(**rhs, mid);
                    assert forall|q: int| lo <= q < mid implies #[trigger] s2[q] == s1[q] by {
                        assert(s2.take(mid as int)[q] == s1[q]);
                    }
                    lemma_fragment_frame(s1, s2, **lhs, lo, None);
                }
                self.join_fragment(&fragment_lhs, fragment_rhs.start);
                proof {
                    let s3 = self.states@;
                    lemma_len_fits(&self.states);
                    lemma_fragment_join(s2, s3, **lhs, lo, fragment_rhs.start);
                    assert forall|q: int| mid <= q < mid + size(**rhs) implies #[trigger] s3[q]
                        == s2[q] by {
                        let qu = q as usize;
                        assert(s3[qu as int] == s3[q]);
                        if fragment_lhs.ends@.contains(qu) {
                            let k = choose|k: int|
                                0 <= k < fragment_lhs.ends@.len() && fragment_lhs.ends@[k] == qu;
                            assert(loose_ends(**lhs, lo)[k] < mid);
                        }
                    }
                    lemma_fragment_frame(s2, s3, **rhs, mid, None);
                    assert(s3.take(lo as int) =~= s0) by {
                        assert forall|q: int| 0 <= q < lo implies s3[q] == s0[q] by {
                            assert(s1.take(lo as int)[q] == s0[q]);
                            assert(s2.take(mid as int)[q] == s1[q]);
                        }
                    }
                }
                Fragment { start: fragment_lhs.start, ends: fragment_rhs.ends }
            },
            AST::Alternation(one, two) => {
                let fragment_one = self.gen_fragment(one);
                let ghost s1 = self.states@;
                let fragment_two = self.gen_fragment(two);
                let ghost s2 = self.states@;
                let ghost mid = lo + size(**one);
                let split_state = self.add_state(
                    State::Split(Some(fragment_one.start), Some(fragment_two.start)),
                );
                proof {
                    let s3 = self.states@;
                    assert forall|q: int| lo <= q < mid implies #[trigger] s2[q] == s1[q] by {
                        assert(s2.take(mid as int)[q] == s1[q]);
                    }
                    lemma_fragment_frame(s1, s3, **one, lo, None);
                    lemma_fragment_frame(s2, s3, **two, mid, None);
                    assert(s3.take(lo as int) =~= s0) by {
                        assert forall|q: int| 0 <= q < lo implies s3[q] == s0[q] by {
                            assert(s1.take(lo as int)[q] == s0[q]);
                            assert(s2.take(mid as int)[q] == s1[q]);
                        }
                    }
                }
                let mut v: Vec<StateId> = Vec::new();
                let mut ends_one = fragment_one.ends;
                let mut ends_two = fragment_two.ends;
                v.append(&mut ends_one);
                v.append(&mut ends_two);
                assert(v@ =~= loose_ends(*ast, lo));
                Fragment { start: split_state, ends: v }
            },
            AST::Closure(inner) => {
                let fragment_ast = self.gen_fragment(inner);
                let ghost s1 = self.states@;
                let split_state = self.add_state(State::Split(Some(fragment_ast.start), None));
                proof {
                    let s2 = self.states@;
                    lemma_fragment_frame(s1, s2, **inner, lo, None);
                    assert(s2.take(lo as int) =~= s0) by {
                        assert forall|q: int| 0 <= q < lo implies s2[q] == s0[q] by {
                            assert(s1.take(lo as int)[q] == s0[q]);
                        }
                    }
                }
                self.close_loop(inner, &fragment_ast, split_state, Ghost(s0));
                Fragment { start: split_state, ends: vec![split_state] }
            },
            AST::OneOrMore(inner) => {
                let fragment_ast = self.gen_fragment(inner);
                let ghost s1 = self.states@;
                let split_state = self.add_state(State::Split(Some(fragment_ast.start), None));
                proof {
                    let s2 = self.states@;
                    lemma_fragment_frame(s1, s2, **inner, lo, None);
                    assert(s2.take(lo as int) =~= s0) by {
                        assert forall|q: int| 0 <= q < lo implies s2[q] == s0[q] by {
                            assert(s1.take(lo as int)[q] == s0[q]);
                        }
                    }
                }
                self.close_loop(inner, &fragment_ast, split_state, Ghost(s0));
                Fragment { start: fragment_ast.start, ends: vec![split_state] }
            },
        }
    }

    /// Join all the loose ends of a fragment to `to`.
    pub fn join_fragment(&mut self, lhs: &Fragment, to: StateId)
        requires
            forall|k: int| 0 <= k < lhs.ends@.len() ==> lhs.ends@[k] < old(self).states@.len(),
        ensures
            final(self).states@.len() == old(self).states@.len(),
            forall|q: usize|
                q < old(self).states@.len() ==> #[trigger] final(self).states@[q as int]
                    == if lhs.ends@.contains(q) {
                    bound_to(old(self).states@[q as int], to)
                } else {
                    old(self).states@[q as int]
                },
    {
        let n = lhs.ends.len();
        let mut i: usize = 0;
        while i < n
            invariant
                i <= n,
                n == lhs.ends@.len(),
                self.states@.len() == old(self).states@.len(),
                forall|k: int| 0 <= k < lhs.ends@.len() ==> lhs.ends@[k] < self.states@.len(),
                forall|q: usize|
                    q < self.states@.len() ==> #[trigger] self.states@[q as int]
                        == if lhs.ends@.take(i as int).contains(q) {
                        bound_to(old(self).states@[q as int], to)
                    } else {
                        old(self).states@[q as int]
                    },
            decreases n - i,
        {
            let ghost before = self.states@;
            let end = lhs.ends[i];
            self.join(end, to);
            proof {
                let done = lhs.ends@.take(i as int);
                let more = lhs.ends@.take(i + 1);
                assert(more =~= done.push(end));
                assert forall|q: usize| q < self.states@.len() implies #[trigger] self.states@[q as int]
                    == if more.contains(q) {
                    bound_to(old(self).states@[q as int], to)
                } else {
                    old(self).states@[q as int]
                } by {
                    assert(before[q as int] == if done.contains(q) {
                        bound_to(old(self).states@[q as int], to)
                    } else {
                        old(self).states@[q as int]
                    });
                    if more.contains(q) {
                        let k = choose|k: int| 0 <= k < more.len() && more[k] == q;
                        if k < i {
                            assert(done[k] == q);
                        }
                    }
                    if done.contains(q) {
                        let k = choose|k: int| 0 <= k < done.len() && done[k] == q;
                        assert(more[k] == q);
                    }
                    if q == end {
                        assert(more[i as int] == q);
                    }
                }
            }
            i = i + 1;
        }
        assert(lhs.ends@.take(n as int) =~= lhs.ends@);
    }

    /// Join the loose end of the state `from` to `to`. Of a split that is
    /// the second transition: the first is bound when the split is made.
    pub fn join(&mut self, from: StateId, to: StateId)
        requires
            from < old(self).states@.len(),
        ensures
            final(self).states@ == old(self).states@.update(
                from as int,
                bound_to(old(self).states@[from as int], to),
            ),
    {
        let joined = match self.states[from] {
            State::Start(_) => State::Start(Some(to)),
            State::Match(l, _) => State::Match(l, Some(to)),
            State::Split(a, _) => State::Split(a, Some(to)),
            State::End => State::End,
        };
        self.states[from] = joined;
    }

    /// Binds the loose ends of the fragment for `inner` to the split that
    /// was added right behind it, which makes the loop of a repetition.
    fn close_loop(
        &mut self,
        inner: &AST,
        fragment: &Fragment,
        split_state: StateId,
        Ghost(s0): Ghost<Seq<State>>,
    )
        requires
            old(self).states@.len() == s0.len() + size(*inner) + 1,
            old(self).states@.take(s0.len() as int) == s0,
            fragment_at(old(self).states@, *inner, s0.len(), None),
            fragment.ends@ == loose_ends(*inner, s0.len()),
            split_state == s0.len() + size(*inner),
            old(self).states@[split_state as int] == State::Split(
                Some(entry(*inner, s0.len()) as usize),
                None,
            ),
        ensures
            final(self).states@.len() == old(self).states@.len(),
            final(self).states@.take(s0.len() as int) == s0,
            fragment_at(final(self).states@, *inner, s0.len(), Some(split_state)),
            final(self).states@[split_state as int] == old(self).states@[split_state as int],
    {
        let ghost lo = s0.len();
        let ghost s2 = self.states@;
        proof {
            lemma_fragment_bounds(*inner, lo);
        }
        self.join_fragment(fragment, split_state);
        proof {
            let s3 = self.states@;
            lemma_fragment_join(s2, s3, *inner, lo, split_state);
            assert(s3.take(lo as int) =~= s0) by {
                assert forall|q: int| 0 <= q < lo implies s3[q] == s0[q] by {
                    assert(s2.take(lo as int)[q] == s0[q]);
                    assert(s3[q as usize as int] == s2[q]);
                }
            }
            assert(s3[split_state as int] == s2[split_state as int]);
        }
    }
}

/// The automaton of a syntax tree. It accepts a line exactly if some
/// contiguous part of the line is a word of the tree.
pub fn compile(ast: &AST) -> (nfa: NFA)
    ensures
        nfa@.compiles(*ast),
        forall|line: Seq<char>| #[trigger] nfa@.accepts_line(line) <==> matches_within(*ast, line),
{
    let mut builder = Builder::new();
    let start = builder.add_state(State::Start(None));
    let body = builder.gen_fragment(ast);
    let ghost s1 = builder.states@;
    builder.join(start, body.start);
    let end = builder.add_state(State::End);
    let ghost s2 = builder.states@;
    proof {
        lemma_len_fits(&builder.states);
        lemma_fragment_bounds(*ast, 1);
        lemma_fragment_frame(s1, s2, *ast, 1, None);
    }
    builder.join_fragment(&body, end);
    proof {
        let s3 = builder.states@;
        lemma_fragment_join(s2, s3, *ast, 1, end);
        assert forall|q: usize| q == 0 || q == end implies !body.ends@.contains(q) by {
            if body.ends@.contains(q) {
                let k = choose|k: int| 0 <= k < body.ends@.len() && body.ends@[k] == q;
                assert(1 <= loose_ends(*ast, 1)[k] < 1 + size(*ast));
            }
        }
        assert(s1.take(1)[0] == State::Start(None));
        assert(s3[0usize as int] == s2[0]);
        assert(s3[end as int] == s2[end as int]);
        assert(s3[0] == State::Start(Some(entry(*ast, 1) as usize)));
        assert(s3[end as int] == State::End);
        assert(s3.len() == size(*ast) + 2);
        let a = Automaton { start, states: s3 };
        lemma_compiled_wf(a, *ast);
        assert(a.compiles(*ast));
        assert forall|line: Seq<char>| #[trigger]
            a.accepts_line(line) <==> matches_within(*ast, line) by {
            lemma_compiled_accepts_line(a, *ast, line);
        }
    }
    NFA { start, states: builder.states }
}

} // verus!
