//! The grammar of patterns, stated as what a run of tokens derives, and the
//! proof that the parser accepts exactly what the grammar generates.
//!
//! ```text
//! Regex      := Catenation ( '|' Regex )?
//! Catenation := Repetition Catenation?
//! Repetition := Atom ( '*' | '+' )?
//! Atom       := '(' Regex ')' | '.' | CHAR
//! ```

use crate::parser::{
    parse_catenation, parse_level, parse_repetition, parse_tokens, starts_atom, ParseError, AST,
};
use crate::tokenizer::{lex, Token};
use vstd::prelude::*;

verus! {

/// Marks an index at which a run of tokens is cut in two.
pub open spec fn cut(k: int) -> bool {
    true
}

/// Whether the tokens of `s` from `i` up to `j` are an `Atom` with tree `t`.
pub open spec fn is_atom(s: Seq<Token>, i: int, j: int, t: AST) -> bool
    decreases j - i, 0nat,
{
    &&& 0 <= i < j <= s.len()
    &&& {
        ||| j == i + 1 && s[i] is AnyChar && t == AST::AnyChar
        ||| j == i + 1 && s[i] is Char && t == AST::Char(s[i]->Char_0)
        ||| j >= i + 2 && s[i] is LParen && s[j - 1] is RParen && is_regex(s, i + 1, j - 1, t)
    }
}

/// Whether the tokens of `s` from `i` up to `j` are a `Repetition` with
/// tree `t`.
pub open spec fn is_repetition(s: Seq<Token>, i: int, j: int, t: AST) -> bool
    decreases j - i, 1nat,
{
    &&& 0 <= i < j <= s.len()
    &&& {
        ||| is_atom(s, i, j, t)
        ||| s[j - 1] is KleeneStar && t is Closure && is_atom(s, i, j - 1, *t->Closure_0)
        ||| s[j - 1] is KleenePlus && t is OneOrMore && is_atom(s, i, j - 1, *t->OneOrMore_0)
    }
}

/// Whether the tokens of `s` from `i` up to `j` are a `Catenation` with
/// tree `t`.
pub open spec fn is_catenation(s: Seq<Token>, i: int, j: int, t: AST) -> bool
    decreases j - i, 2nat,
{
    &&& 0 <= i < j <= s.len()
    &&& {
        ||| is_repetition(s, i, j, t)
        ||| t is Catenation && exists|k: int|
            #[trigger] cut(k) && i < k < j && is_repetition(s, i, k, *t->Catenation_0)
                && is_catenation(s, k, j, *t->Catenation_1)
    }
}

/// Whether the tokens of `s` from `i` up to `j` are a `Regex` with tree `t`.
pub open spec fn is_regex(s: Seq<Token>, i: int, j: int, t: AST) -> bool
    decreases j - i, 3nat,
{
    &&& 0 <= i < j <= s.len()
    &&& {
        ||| is_catenation(s, i, j, t)
        ||| t is Alternation && exists|k: int|
            #[trigger] cut(k) && i < k < j - 1 && s[k] is UnionBar && is_catenation(
                s,
                i,
                k,
                *t->Alternation_0,
            ) && is_regex(s, k + 1, j, *t->Alternation_1)
    }
}

/// Whether the whole of `s` is a pattern with tree `t`.
pub open spec fn generates(s: Seq<Token>, t: AST) -> bool {
    is_regex(s, 0, s.len() as int, t)
}

/// The production derived at a given level: 0 an atom, 1 a repetition, 2 a
/// catenation, anything else a regex.
pub open spec fn is_level(s: Seq<Token>, i: int, j: int, t: AST, level: nat) -> bool {
    if level == 0 {
        is_atom(s, i, j, t)
    } else if level == 1 {
        is_repetition(s, i, j, t)
    } else if level == 2 {
        is_catenation(s, i, j, t)
    } else {
        is_regex(s, i, j, t)
    }
}

/// Whether the token behind a production of the given level, at index `j`,
/// leaves the production complete: nothing may follow an atom's repetition
/// mark that is another mark, a catenation that could go on, or a regex
/// that is neither at the end nor closed by a parenthesis.
pub open spec fn may_follow(s: Seq<Token>, j: int, level: nat) -> bool {
    if level == 0 {
        true
    } else if j >= s.len() {
        true
    } else if level == 1 {
        !(s[j] is KleeneStar) && !(s[j] is KleenePlus)
    } else if level == 2 {
        s[j] is RParen || s[j] is UnionBar
    } else {
        s[j] is RParen
    }
}

/// What the parser reads is derived by the grammar.
pub proof fn lemma_parser_sound(s: Seq<Token>, i: nat, level: nat)
    ensures
        match parse_level(s, i, level) {
            Ok((t, j)) => is_level(s, i as int, j as int, t, level),
            Err(_) => true,
        },
    decreases s.len() - i, level,
{
    crate::parser::lemma_parse_advances(s, i, level);
    if level == 0 {
        if i < s.len() && s[i as int] is LParen {
            lemma_parser_sound(s, i + 1, 3);
            crate::parser::lemma_parse_advances(s, i + 1, 3);
        }
    } else if level == 1 {
        lemma_parser_sound(s, i, 0);
        crate::parser::lemma_parse_advances(s, i, 0);
    } else if level == 2 {
        lemma_parser_sound(s, i, 1);
        crate::parser::lemma_parse_advances(s, i, 1);
        match parse_repetition(s, i) {
            Ok((_, j)) => {
                if j < s.len() && starts_atom(s[j as int]) {
                    lemma_parser_sound(s, j, 2);
                    crate::parser::lemma_parse_advances(s, j, 2);
                    assert(cut(j as int));
                }
            },
            Err(_) => {},
        }
    } else {
        lemma_parser_sound(s, i, 2);
        crate::parser::lemma_parse_advances(s, i, 2);
        match parse_catenation(s, i) {
            Ok((_, j)) => {
                if j < s.len() && s[j as int] is UnionBar {
                    lemma_parser_sound(s, j + 1, 3);
                    crate::parser::lemma_parse_advances(s, j + 1, 3);
                    assert(cut(j as int));
                }
            },
            Err(_) => {},
        }
    }
}

/// Every production begins with a token that can begin an atom.
pub proof fn lemma_first_token(s: Seq<Token>, i: int, j: int, t: AST, level: nat)
    requires
        is_level(s, i, j, t, level),
    ensures
        0 <= i < j <= s.len(),
        starts_atom(s[i]),
    decreases j - i, level,
{
    if level == 0 {
    } else if level == 1 {
        if is_atom(s, i, j, t) {
            lemma_first_token(s, i, j, t, 0);
        } else if s[j - 1] is KleeneStar && t is Closure && is_atom(s, i, j - 1, *t->Closure_0) {
            lemma_first_token(s, i, j - 1, *t->Closure_0, 0);
        } else {
            lemma_first_token(s, i, j - 1, *t->OneOrMore_0, 0);
        }
    } else if level == 2 {
        if is_repetition(s, i, j, t) {
            lemma_first_token(s, i, j, t, 1);
        } else {
            let k = choose|k: int|
                #[trigger] cut(k) && i < k < j && is_repetition(s, i, k, *t->Catenation_0)
                    && is_catenation(s, k, j, *t->Catenation_1);
            lemma_first_token(s, i, k, *t->Catenation_0, 1);
        }
    } else {
        if is_catenation(s, i, j, t) {
            lemma_first_token(s, i, j, t, 2);
        } else {
            let k = choose|k: int|
                #[trigger] cut(k) && i < k < j - 1 && s[k] is UnionBar && is_catenation(
                    s,
                    i,
                    k,
                    *t->Alternation_0,
                ) && is_regex(s, k + 1, j, *t->Alternation_1);
            lemma_first_token(s, i, k, *t->Alternation_0, 2);
        }
    }
}

/// What the grammar derives, the parser reads, provided that the token
/// behind it leaves the production complete.
pub proof fn lemma_parser_complete(s: Seq<Token>, i: int, j: int, t: AST, level: nat)
    requires
        is_level(s, i, j, t, level),
        may_follow(s, j, level),
    ensures
        i >= 0,
        j >= 0,
        parse_level(s, i as nat, level) == Ok::<(AST, nat), ParseError>((t, j as nat)),
    decreases j - i, level,
{
    if level == 0 {
        if j >= i + 2 && s[i] is LParen && s[j - 1] is RParen && is_regex(s, i + 1, j - 1, t) {
            lemma_parser_complete(s, i + 1, j - 1, t, 3);
        }
    } else if level == 1 {
        if is_atom(s, i, j, t) {
            lemma_parser_complete(s, i, j, t, 0);
        } else if s[j - 1] is KleeneStar && t is Closure && is_atom(s, i, j - 1, *t->Closure_0) {
            lemma_parser_complete(s, i, j - 1, *t->Closure_0, 0);
        } else {
            lemma_parser_complete(s, i, j - 1, *t->OneOrMore_0, 0);
        }
    } else if level == 2 {
        if is_repetition(s, i, j, t) {
            lemma_parser_complete(s, i, j, t, 1);
        } else {
            let k = choose|k: int|
                #[trigger] cut(k) && i < k < j && is_repetition(s, i, k, *t->Catenation_0)
                    && is_catenation(s, k, j, *t->Catenation_1);
            lemma_first_token(s, k, j, *t->Catenation_1, 2);
            lemma_parser_complete(s, i, k, *t->Catenation_0, 1);
            lemma_parser_complete(s, k, j, *t->Catenation_1, 2);
        }
    } else {
        if is_catenation(s, i, j, t) {
            lemma_parser_complete(s, i, j, t, 2);
        } else {
            let k = choose|k: int|
                #[trigger] cut(k) && i < k < j - 1 && s[k] is UnionBar && is_catenation(
                    s,
                    i,
                    k,
                    *t->Alternation_0,
                ) && is_regex(s, k + 1, j, *t->Alternation_1);
            lemma_parser_complete(s, i, k, *t->Alternation_0, 2);
            lemma_parser_complete(s, k + 1, j, *t->Alternation_1, 3);
        }
    }
}

/// Parsing succeeds exactly on what the grammar generates, and with the
/// tree that the grammar gives it: `s` parses to `t` if and only if `s`, as
/// a whole, is a `Regex` with tree `t`.
pub proof fn lemma_parse_iff_generated(s: Seq<Token>, t: AST)
    ensures
        parse_tokens(s) == Ok::<AST, ParseError>(t) <==> generates(s, t),
{
    if parse_tokens(s) == Ok::<AST, ParseError>(t) {
        lemma_parser_sound(s, 0, 3);
    }
    if generates(s, t) {
        lemma_parser_complete(s, 0, s.len() as int, t, 3);
    }
}

/// A pattern compiles if and only if the grammar generates its tokens.
pub proof fn lemma_accepts_iff_generated(pattern: Seq<char>)
    ensures
        parse_tokens(lex(pattern)) is Ok <==> exists|t: AST| generates(lex(pattern), t),
{
    let s = lex(pattern);
    if parse_tokens(s) is Ok {
        lemma_parse_iff_generated(s, parse_tokens(s)->Ok_0);
    }
    if exists|t: AST| generates(s, t) {
        let t = choose|t: AST| generates(s, t);
        lemma_parse_iff_generated(s, t);
    }
}

/// The grammar gives a sequence of tokens at most one tree.
pub proof fn lemma_tree_unique(s: Seq<Token>, t1: AST, t2: AST)
    requires
        generates(s, t1),
        generates(s, t2),
    ensures
        t1 == t2,
{
    lemma_parse_iff_generated(s, t1);
    lemma_parse_iff_generated(s, t2);
}

/// A derivation does not depend on what stands around it: the same run of
/// tokens, found `d` places further in another sequence, derives the same.
pub proof fn lemma_derivation_moves(
    s: Seq<Token>,
    i: int,
    j: int,
    t: AST,
    level: nat,
    s2: Seq<Token>,
    d: int,
)
    requires
        is_level(s, i, j, t, level),
        0 <= i + d,
        j + d <= s2.len(),
        forall|k: int| i <= k < j ==> s2[k + d] == #[trigger] s[k],
    ensures
        is_level(s2, i + d, j + d, t, level),
    decreases j - i, level,
{
    assert(s2[i + d] == s[i]);
    assert(s2[j - 1 + d] == s[j - 1]);
    if level == 0 {
        if j >= i + 2 && s[i] is LParen && s[j - 1] is RParen && is_regex(s, i + 1, j - 1, t) {
            lemma_derivation_moves(s, i + 1, j - 1, t, 3, s2, d);
        }
    } else if level == 1 {
        if is_atom(s, i, j, t) {
            lemma_derivation_moves(s, i, j, t, 0, s2, d);
        } else if s[j - 1] is KleeneStar && t is Closure && is_atom(s, i, j - 1, *t->Closure_0) {
            lemma_derivation_moves(s, i, j - 1, *t->Closure_0, 0, s2, d);
        } else {
            lemma_derivation_moves(s, i, j - 1, *t->OneOrMore_0, 0, s2, d);
        }
    } else if level == 2 {
        if is_repetition(s, i, j, t) {
            lemma_derivation_moves(s, i, j, t, 1, s2, d);
        } else {
            let k = choose|k: int|
                #[trigger] cut(k) && i < k < j && is_repetition(s, i, k, *t->Catenation_0)
                    && is_catenation(s, k, j, *t->Catenation_1);
            lemma_derivation_moves(s, i, k, *t->Catenation_0, 1, s2, d);
            lemma_derivation_moves(s, k, j, *t->Catenation_1, 2, s2, d);
            assert(cut(k + d));
        }
    } else {
        if is_catenation(s, i, j, t) {
            lemma_derivation_moves(s, i, j, t, 2, s2, d);
        } else {
            let k = choose|k: int|
                #[trigger] cut(k) && i < k < j - 1 && s[k] is UnionBar && is_catenation(
                    s,
                    i,
                    k,
                    *t->Alternation_0,
                ) && is_regex(s, k + 1, j, *t->Alternation_1);
            assert(s2[k + d] == s[k]);
            lemma_derivation_moves(s, i, k, *t->Alternation_0, 2, s2, d);
            lemma_derivation_moves(s, k + 1, j, *t->Alternation_1, 3, s2, d);
            assert(cut(k + d));
        }
    }
}

/// The tokens `inner` in parentheses.
pub open spec fn group(inner: Seq<Token>) -> Seq<Token> {
    seq![Token::LParen] + inner + seq![Token::RParen]
}

/// A sequence of tokens for the tree `t`: every operand of an operator
/// stands in parentheses.
pub open spec fn render(t: AST) -> Seq<Token>
    decreases t,
{
    match t {
        AST::Char(c) => seq![Token::Char(c)],
        AST::AnyChar => seq![Token::AnyChar],
        AST::Catenation(l, r) => group(render(*l)) + group(render(*r)),
        AST::Alternation(l, r) => group(render(*l)) + seq![Token::UnionBar] + group(render(*r)),
        AST::Closure(x) => group(render(*x)) + seq![Token::KleeneStar],
        AST::OneOrMore(x) => group(render(*x)) + seq![Token::KleenePlus],
    }
}

/// A pattern in parentheses, wherever it stands, is an atom with the tree
/// of the pattern.
pub proof fn lemma_group_is_atom(inner: Seq<Token>, t: AST, s: Seq<Token>, at: int)
    requires
        generates(inner, t),
        0 <= at,
        at + inner.len() + 2 <= s.len(),
        forall|k: int| 0 <= k < inner.len() + 2 ==> s[at + k] == #[trigger] group(inner)[k],
    ensures
        is_atom(s, at, at + inner.len() + 2, t),
        is_repetition(s, at, at + inner.len() + 2, t),
        is_catenation(s, at, at + inner.len() + 2, t),
{
    let g = group(inner);
    assert(s[at + 0] == g[0]);
    assert(s[at + (inner.len() + 1)] == g[(inner.len() + 1) as int]);
    assert forall|k: int| 0 <= k < inner.len() implies s[k + (at + 1)] == #[trigger] inner[k] by {
        assert(s[at + (k + 1)] == g[k + 1]);
    }
    lemma_derivation_moves(inner, 0, inner.len() as int, t, 3, s, at + 1);
    let end = at + inner.len() + 2;
    assert(is_atom(s, at, end, t));
    assert(is_repetition(s, at, end, t));
}

/// The grammar generates the rendering of every tree, with that tree.
pub proof fn lemma_render_generated(t: AST)
    ensures
        generates(render(t), t),
    decreases t,
{
    let s = render(t);
    match t {
        AST::Char(c) => {
            assert(is_atom(s, 0, 1, t));
            assert(is_repetition(s, 0, 1, t));
            assert(is_catenation(s, 0, 1, t));
        },
        AST::AnyChar => {
            assert(is_atom(s, 0, 1, t));
            assert(is_repetition(s, 0, 1, t));
            assert(is_catenation(s, 0, 1, t));
        },
        AST::Catenation(l, r) => {
            let a = render(*l);
            let b = render(*r);
            lemma_render_generated(*l);
            lemma_render_generated(*r);
            let k = (a.len() + 2) as int;
            assert forall|x: int| 0 <= x < a.len() + 2 implies s[0 + x] == #[trigger] group(a)[x] by {}
            assert forall|x: int| 0 <= x < b.len() + 2 implies s[k + x] == #[trigger] group(b)[x] by {}
            lemma_group_is_atom(a, *l, s, 0);
            lemma_group_is_atom(b, *r, s, k);
            assert(cut(k));
            assert(is_catenation(s, 0, s.len() as int, t));
        },
        AST::Alternation(l, r) => {
            let a = render(*l);
            let b = render(*r);
            lemma_render_generated(*l);
            lemma_render_generated(*r);
            let k = (a.len() + 2) as int;
            assert forall|x: int| 0 <= x < a.len() + 2 implies s[0 + x] == #[trigger] group(a)[x] by {}
            assert forall|x: int| 0 <= x < b.len() + 2 implies s[k + 1 + x] == #[trigger] group(b)[x] by {}
            lemma_group_is_atom(a, *l, s, 0);
            lemma_group_is_atom(b, *r, s, k + 1);
            assert(s[k] is UnionBar);
            assert(is_regex(s, k + 1, s.len() as int, *r));
            assert(cut(k));
        },
        AST::Closure(x) => {
            let a = render(*x);
            lemma_render_generated(*x);
            assert forall|y: int| 0 <= y < a.len() + 2 implies s[0 + y] == #[trigger] group(a)[y] by {}
            lemma_group_is_atom(a, *x, s, 0);
            assert(s[s.len() - 1] is KleeneStar);
            assert(is_repetition(s, 0, s.len() as int, t));
            assert(is_catenation(s, 0, s.len() as int, t));
        },
        AST::OneOrMore(x) => {
            let a = render(*x);
            lemma_render_generated(*x);
            assert forall|y: int| 0 <= y < a.len() + 2 implies s[0 + y] == #[trigger] group(a)[y] by {}
            lemma_group_is_atom(a, *x, s, 0);
            assert(s[s.len() - 1] is KleenePlus);
            assert(is_repetition(s, 0, s.len() as int, t));
            assert(is_catenation(s, 0, s.len() as int, t));
        },
    }
}

/// Every tree is the tree of a pattern: parsing the rendering of a tree
/// gives the tree back.
pub proof fn lemma_render_round_trip(t: AST)
    ensures
        parse_tokens(render(t)) == Ok::<AST, ParseError>(t),
{
    lemma_render_generated(t);
    lemma_parse_iff_generated(render(t), t);
}

/// Parsing is a function of the pattern: whatever two runs of the parser on
/// one pattern return, each as the parser's contract has it, is the same
/// tree or the same error.
pub proof fn lemma_parse_deterministic(
    pattern: Seq<char>,
    first: Result<AST, ParseError>,
    second: Result<AST, ParseError>,
)
    requires
        first == parse_tokens(lex(pattern)),
        second == parse_tokens(lex(pattern)),
    ensures
        first == second,
{
}

/// An unexpected token is reported with the index at which it stands.
pub proof fn lemma_unexpected_token_position(s: Seq<Token>, i: nat, level: nat)
    requires
        s.len() <= usize::MAX,
    ensures
        match parse_level(s, i, level) {
            Err(ParseError::UnexpectedToken { found, position }) => i <= position < s.len()
                && s[position as int] == found,
            _ => true,
        },
    decreases s.len() - i, level,
{
    crate::parser::lemma_parse_advances(s, i, level);
    if level == 0 {
        if i < s.len() && s[i as int] is LParen {
            lemma_unexpected_token_position(s, i + 1, 3);
            crate::parser::lemma_parse_advances(s, i + 1, 3);
        }
    } else if level == 1 {
        lemma_unexpected_token_position(s, i, 0);
    } else if level == 2 {
        lemma_unexpected_token_position(s, i, 1);
        crate::parser::lemma_parse_advances(s, i, 1);
        match parse_repetition(s, i) {
            Ok((_, j)) => {
                if j < s.len() && starts_atom(s[j as int]) {
                    lemma_unexpected_token_position(s, j, 2);
                }
            },
            Err(_) => {},
        }
    } else {
        lemma_unexpected_token_position(s, i, 2);
        crate::parser::lemma_parse_advances(s, i, 2);
        match parse_catenation(s, i) {
            Ok((_, j)) => {
                if j < s.len() && s[j as int] is UnionBar {
                    lemma_unexpected_token_position(s, j + 1, 3);
                }
            },
            Err(_) => {},
        }
    }
}

/// Whether `s` and `s2` have the same first `n` tokens.
pub open spec fn agree(s: Seq<Token>, s2: Seq<Token>, n: int) -> bool {
    &&& n <= s.len()
    &&& n <= s2.len()
    &&& forall|k: int| 0 <= k < n ==> s[k] == s2[k]
}

/// What the parser makes of a production depends on the tokens it has
/// looked at only: the production and the one token behind it where it
/// succeeds before the end, the tokens up to the unexpected one where it
/// fails on a token.
pub proof fn lemma_parse_looks_ahead_one(s: Seq<Token>, s2: Seq<Token>, i: nat, level: nat)
    requires
        s.len() <= usize::MAX,
        s2.len() <= usize::MAX,
    ensures
        match parse_level(s, i, level) {
            Ok((t, j)) => j < s.len() && agree(s, s2, (j + 1) as int) ==> parse_level(s2, i, level)
                == parse_level(s, i, level),
            Err(ParseError::UnexpectedToken { found, position }) => agree(s, s2, position + 1)
                ==> parse_level(s2, i, level) == parse_level(s, i, level),
            Err(ParseError::UnexpectedEndOfInput) => true,
        },
    decreases s.len() - i, level,
{
    crate::parser::lemma_parse_advances(s, i, level);
    lemma_unexpected_token_position(s, i, level);
    if i < s.len() {
        if level == 0 {
            if s[i as int] is LParen {
                lemma_parse_looks_ahead_one(s, s2, i + 1, 3);
                crate::parser::lemma_parse_advances(s, i + 1, 3);
                lemma_unexpected_token_position(s, i + 1, 3);
            }
        } else if level == 1 {
            lemma_parse_looks_ahead_one(s, s2, i, 0);
            crate::parser::lemma_parse_advances(s, i, 0);
            lemma_unexpected_token_position(s, i, 0);
        } else if level == 2 {
            lemma_parse_looks_ahead_one(s, s2, i, 1);
            crate::parser::lemma_parse_advances(s, i, 1);
            lemma_unexpected_token_position(s, i, 1);
            match parse_repetition(s, i) {
                Ok((_, j)) => {
                    if j < s.len() && starts_atom(s[j as int]) {
                        lemma_parse_looks_ahead_one(s, s2, j, 2);
                        crate::parser::lemma_parse_advances(s, j, 2);
                        lemma_unexpected_token_position(s, j, 2);
                    }
                },
                Err(_) => {},
            }
        } else {
            lemma_parse_looks_ahead_one(s, s2, i, 2);
            crate::parser::lemma_parse_advances(s, i, 2);
            lemma_unexpected_token_position(s, i, 2);
            match parse_catenation(s, i) {
                Ok((_, j)) => {
                    if j < s.len() && s[j as int] is UnionBar {
                        lemma_parse_looks_ahead_one(s, s2, j + 1, 3);
                        crate::parser::lemma_parse_advances(s, j + 1, 3);
                        lemma_unexpected_token_position(s, j + 1, 3);
                    }
                },
                Err(_) => {},
            }
        }
    }
}

/// An unexpected token is at fault whatever follows it: every sequence that
/// begins with the same tokens, up to the unexpected one, fails in the same
/// way.
pub proof fn lemma_unexpected_token_is_final(s: Seq<Token>, s2: Seq<Token>)
    requires
        s.len() <= usize::MAX,
        s2.len() <= usize::MAX,
        parse_tokens(s) is Err,
        parse_tokens(s)->Err_0 is UnexpectedToken,
        agree(s, s2, parse_tokens(s)->Err_0->position + 1),
    ensures
        parse_tokens(s2) == parse_tokens(s),
{
    lemma_parse_looks_ahead_one(s, s2, 0, 3);
    crate::parser::lemma_parse_advances(s, 0, 3);
    lemma_unexpected_token_position(s, 0, 3);
}

/// Where the tokens run out, none of them is at fault: no sequence that
/// goes on from them fails on one of their tokens.
pub proof fn lemma_end_of_input_blames_no_token(s: Seq<Token>, s2: Seq<Token>)
    requires
        s.len() <= usize::MAX,
        s2.len() <= usize::MAX,
        parse_tokens(s) == Err::<AST, ParseError>(ParseError::UnexpectedEndOfInput),
        agree(s, s2, s.len() as int),
    ensures
        !(parse_tokens(s2) is Err && parse_tokens(s2)->Err_0 is UnexpectedToken && parse_tokens(
            s2,
        )->Err_0->position < s.len()),
{
    if parse_tokens(s2) is Err && parse_tokens(s2)->Err_0 is UnexpectedToken && parse_tokens(
        s2,
    )->Err_0->position < s.len() {
        lemma_unexpected_token_is_final(s2, s);
    }
}

} // verus!
