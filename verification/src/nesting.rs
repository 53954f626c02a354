//! Group nesting as a stack automaton over a flat token sequence.

use vstd::prelude::*;
use crate::token::{Delimiter, Lexeme};
use crate::error::PipeError;

verus! {

/// Where a left-to-right scan stands: inside the groups on the stack, the
/// innermost last, or stopped at a fault.
pub enum Nest {
    Within(Seq<Delimiter>),
    Unbalanced,
    TooDeep,
}

/// The scan after one more token. A fault stays. With a limit, a group that
/// would be the `limit + 1`st open one is too deep.
pub open spec fn advance(state: Nest, t: Lexeme, limit: Option<nat>) -> Nest {
    match state {
        Nest::Within(stack) => match t {
            Lexeme::Atom(_) => state,
            Lexeme::Open(d) => if limit is Some && stack.len() >= limit->0 {
                Nest::TooDeep
            } else {
                Nest::Within(stack.push(d))
            },
            Lexeme::Close(d) => if stack.len() > 0 && stack.last() == d {
                Nest::Within(stack.drop_last())
            } else {
                Nest::Unbalanced
            },
        },
        _ => state,
    }
}

/// The scan of `s` that starts in `state`.
pub open spec fn nest_from(state: Nest, s: Seq<Lexeme>, limit: Option<nat>) -> Nest
    decreases s.len(),
{
    if s.len() == 0 {
        state
    } else {
        advance(nest_from(state, s.drop_last(), limit), s.last(), limit)
    }
}

/// The scan of `s` from outside every group.
pub open spec fn nest(s: Seq<Lexeme>, limit: Option<nat>) -> Nest {
    nest_from(Nest::Within(Seq::empty()), s, limit)
}

/// Whether the scan stands outside every group.
pub open spec fn at_top(state: Nest) -> bool {
    state matches Nest::Within(stack) && stack.len() == 0
}

/// Every group of `s` is closed by a bracket of its own kind, and nothing is
/// closed that was not opened.
pub open spec fn balanced(s: Seq<Lexeme>) -> bool {
    at_top(nest(s, None))
}

/// What is wrong with the nesting of `s` where at most `limit` groups may be
/// open at once: the first fault that a left-to-right scan meets, a group
/// still open at the end counting as the last.
pub open spec fn fault(s: Seq<Lexeme>, limit: nat) -> Option<PipeError> {
    match nest(s, Some(limit)) {
        Nest::Within(stack) => if stack.len() == 0 {
            None
        } else {
            Some(PipeError::UnbalancedGroup)
        },
        Nest::Unbalanced => Some(PipeError::UnbalancedGroup),
        Nest::TooDeep => Some(PipeError::NestingTooDeep),
    }
}

/// Outside every group the stack is the empty one.
pub proof fn lemma_top_is_empty(state: Nest)
    requires
        at_top(state),
    ensures
        state == Nest::Within(Seq::empty()),
{
    assert(state->Within_0 =~= Seq::empty());
}

/// Scanning one token more is one `advance`.
pub proof fn lemma_nest_step(state: Nest, s: Seq<Lexeme>, k: int, limit: Option<nat>)
    requires
        0 <= k < s.len(),
    ensures
        nest_from(state, s.take(k + 1), limit) == advance(
            nest_from(state, s.take(k), limit),
            s[k],
            limit,
        ),
{
    assert(s.take(k + 1).drop_last() =~= s.take(k));
}

/// A scan of two sequences on end is the scan of the second from where the
/// first one ended.
pub proof fn lemma_nest_concat(state: Nest, a: Seq<Lexeme>, b: Seq<Lexeme>, limit: Option<nat>)
    ensures
        nest_from(state, a + b, limit) == nest_from(nest_from(state, a, limit), b, limit),
    decreases b.len(),
{
    if b.len() == 0 {
        assert(a + b =~= a);
    } else {
        lemma_nest_concat(state, a, b.drop_last(), limit);
        assert((a + b).drop_last() =~= a + b.drop_last());
    }
}

/// A fault is never left.
pub proof fn lemma_fault_stays(state: Nest, s: Seq<Lexeme>, limit: Option<nat>)
    requires
        !(state is Within),
    ensures
        nest_from(state, s, limit) == state,
    decreases s.len(),
{
    if s.len() > 0 {
        lemma_fault_stays(state, s.drop_last(), limit);
    }
}

/// A scan that has met a fault in a prefix ends in that fault.
pub proof fn lemma_fault_extends(s: Seq<Lexeme>, k: int, limit: Option<nat>)
    requires
        0 <= k <= s.len(),
        !(nest(s.take(k), limit) is Within),
    ensures
        nest(s, limit) == nest(s.take(k), limit),
{
    assert(s =~= s.take(k) + s.skip(k));
    lemma_nest_concat(Nest::Within(Seq::empty()), s.take(k), s.skip(k), limit);
    lemma_fault_stays(nest(s.take(k), limit), s.skip(k), limit);
}

/// Where the bounded scan meets no fault, the unbounded one stands in the
/// same place.
pub proof fn lemma_limit_agrees(s: Seq<Lexeme>, limit: nat)
    requires
        nest(s, Some(limit)) is Within,
    ensures
        nest(s, None) == nest(s, Some(limit)),
    decreases s.len(),
{
    if s.len() > 0 {
        let p = s.drop_last();
        if !(nest(p, Some(limit)) is Within) {
            lemma_fault_stays(nest(p, Some(limit)), seq![s.last()], Some(limit));
            assert(nest(s, Some(limit)) == advance(nest(p, Some(limit)), s.last(), Some(limit)));
        }
        lemma_limit_agrees(p, limit);
    }
}

/// A bound on the depth adds no fault but `TooDeep`.
pub proof fn lemma_limit_only_deepens(s: Seq<Lexeme>, limit: nat)
    ensures
        nest(s, Some(limit)) is TooDeep || nest(s, Some(limit)) == nest(s, None),
    decreases s.len(),
{
    if s.len() > 0 {
        lemma_limit_only_deepens(s.drop_last(), limit);
    }
}

/// A scan that starts inside groups passes over a sequence as one from
/// outside does, with those groups below its own.
pub proof fn lemma_nest_frame(below: Seq<Delimiter>, s: Seq<Lexeme>)
    requires
        nest(s, None) is Within,
    ensures
        nest_from(Nest::Within(below), s, None) == Nest::Within(below + nest(s, None)->Within_0),
    decreases s.len(),
{
    if s.len() == 0 {
        assert(below + Seq::<Delimiter>::empty() =~= below);
    } else {
        let front = s.drop_last();
        if !(nest(front, None) is Within) {
            lemma_fault_stays(nest(front, None), seq![s.last()], None);
            assert(nest(s, None) == advance(nest(front, None), s.last(), None));
        }
        lemma_nest_frame(below, front);
        let own = nest(front, None)->Within_0;
        match s.last() {
            Lexeme::Atom(_) => {},
            Lexeme::Open(d) => {
                assert((below + own).push(d) =~= below + own.push(d));
            },
            Lexeme::Close(d) => {
                assert((below + own).drop_last() =~= below + own.drop_last());
            },
        }
    }
}

/// Two balanced sequences on end are balanced.
pub proof fn lemma_balanced_concat(a: Seq<Lexeme>, b: Seq<Lexeme>)
    requires
        balanced(a),
        balanced(b),
    ensures
        balanced(a + b),
{
    lemma_nest_concat(Nest::Within(Seq::empty()), a, b, None);
    lemma_top_is_empty(nest(a, None));
}

/// One token alone is balanced exactly when it is an atom.
pub proof fn lemma_balanced_single(t: Lexeme)
    ensures
        balanced(seq![t]) == (t is Atom),
        nest(seq![t], None) == advance(Nest::Within(Seq::empty()), t, None),
{
    let one = seq![t];
    assert(one.drop_last() =~= Seq::empty());
    assert(nest(one, None) == advance(nest(one.drop_last(), None), one.last(), None));
}

/// A balanced sequence between an opening bracket and the closing one of
/// the same kind is balanced.
pub proof fn lemma_balanced_group(d: Delimiter, inside: Seq<Lexeme>)
    requires
        balanced(inside),
    ensures
        balanced(seq![Lexeme::Open(d)] + inside + seq![Lexeme::Close(d)]),
{
    let open = seq![Lexeme::Open(d)];
    let shut = seq![Lexeme::Close(d)];
    let top = Nest::Within(Seq::empty());
    lemma_balanced_single(Lexeme::Open(d));
    lemma_nest_concat(top, open, inside, None);
    lemma_top_is_empty(nest(inside, None));
    lemma_nest_frame(Seq::empty().push(d), inside);
    assert(Seq::<Delimiter>::empty().push(d) + Seq::<Delimiter>::empty() =~= Seq::empty().push(d));
    lemma_nest_concat(top, open + inside, shut, None);
    assert(shut.drop_last() =~= Seq::empty());
    assert(nest_from(nest(open + inside, None), shut, None) == advance(
        nest_from(nest(open + inside, None), shut.drop_last(), None),
        shut.last(),
        None,
    ));
    assert(Seq::<Delimiter>::empty().push(d).drop_last() =~= Seq::empty());
}

} // verus!
