//! Separators that stand outside every group.

use vstd::prelude::*;
use crate::grammar::Sentinels;
use crate::nesting::{balanced, lemma_fault_extends, lemma_top_is_empty, nest};
use crate::token::Lexeme;

verus! {

/// Position `i` of `s` holds a separator, and what stands before it is
/// balanced: the separator cuts `s` into stages.
pub open spec fn is_cut(g: Sentinels, s: Seq<Lexeme>, i: int) -> bool {
    0 <= i < s.len() && s[i] == Lexeme::Atom(g.separator) && balanced(s.take(i))
}

/// No position before `k` cuts `s`.
pub open spec fn uncut(g: Sentinels, s: Seq<Lexeme>, k: int) -> bool {
    forall|i: int| 0 <= i < k ==> !#[trigger] is_cut(g, s, i)
}

/// The first cut of `s` at or after `i`, or the length of `s` if there is none.
pub open spec fn first_cut_from(g: Sentinels, s: Seq<Lexeme>, i: int) -> int
    decreases s.len() - i,
{
    if i < 0 || i >= s.len() {
        s.len() as int
    } else if is_cut(g, s, i) {
        i
    } else {
        first_cut_from(g, s, i + 1)
    }
}

/// The first cut of `s`, or the length of `s` if nothing cuts it.
pub open spec fn first_cut(g: Sentinels, s: Seq<Lexeme>) -> int {
    first_cut_from(g, s, 0)
}

/// `first_cut_from` finds the least cut at or after `i`.
pub proof fn lemma_first_cut_from(g: Sentinels, s: Seq<Lexeme>, i: int)
    requires
        0 <= i <= s.len(),
    ensures
        i <= first_cut_from(g, s, i) <= s.len(),
        first_cut_from(g, s, i) < s.len() ==> is_cut(g, s, first_cut_from(g, s, i)),
        forall|j: int| i <= j < first_cut_from(g, s, i) ==> !#[trigger] is_cut(g, s, j),
    decreases s.len() - i,
{
    if i < s.len() && !is_cut(g, s, i) {
        lemma_first_cut_from(g, s, i + 1);
    }
}

/// The first cut is a cut unless it is the length, and nothing before it is.
pub proof fn lemma_first_cut(g: Sentinels, s: Seq<Lexeme>)
    ensures
        0 <= first_cut(g, s) <= s.len(),
        first_cut(g, s) < s.len() ==> is_cut(g, s, first_cut(g, s)),
        uncut(g, s, first_cut(g, s)),
{
    lemma_first_cut_from(g, s, 0);
}

/// With nothing cut before `k`, the first cut is `k` if `k` is a cut or the
/// end, and lies behind `k` otherwise.
pub proof fn lemma_first_cut_found(g: Sentinels, s: Seq<Lexeme>, k: int)
    requires
        0 <= k <= s.len(),
        uncut(g, s, k),
    ensures
        k <= first_cut(g, s) <= s.len(),
        (k == s.len() || is_cut(g, s, k)) ==> first_cut(g, s) == k,
        (k < s.len() && !is_cut(g, s, k)) ==> first_cut(g, s) > k,
{
    lemma_first_cut(g, s);
}

/// A cut of `s` behind a balanced prefix of length `k` is a cut of the rest,
/// and the other way round.
pub proof fn lemma_cut_shift(g: Sentinels, s: Seq<Lexeme>, k: int, i: int)
    requires
        0 <= k <= s.len(),
        balanced(s.take(k)),
        0 <= i,
    ensures
        is_cut(g, s.skip(k), i) == is_cut(g, s, k + i),
{
    if k + i < s.len() {
        assert(s.take(k + i) =~= s.take(k) + s.skip(k).take(i));
        crate::nesting::lemma_nest_concat(
            crate::nesting::Nest::Within(Seq::empty()),
            s.take(k),
            s.skip(k).take(i),
            None,
        );
        lemma_top_is_empty(nest(s.take(k), None));
    }
}

/// A fault met before anything cut `s` is a fault of what stands before the
/// first cut.
pub proof fn lemma_fault_before_cut(g: Sentinels, s: Seq<Lexeme>, p: int, limit: Option<nat>)
    requires
        0 <= p <= s.len(),
        uncut(g, s, p),
        !(nest(s.take(p), limit) is Within),
    ensures
        nest(s.take(first_cut(g, s)), limit) == nest(s.take(p), limit),
{
    lemma_first_cut_found(g, s, p);
    let own = s.take(first_cut(g, s));
    assert(own.take(p) =~= s.take(p));
    lemma_fault_extends(own, p, limit);
}

} // verus!
