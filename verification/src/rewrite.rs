//! The placeholder rewriter: a recursive scan of one stage that puts the
//! carried name in the place of every placeholder, at any depth of nesting.

use vstd::prelude::*;
use crate::cut::{
    first_cut, is_cut, lemma_fault_before_cut, lemma_first_cut_found, uncut,
};
use crate::error::PipeError;
use crate::grammar::{Grammar, Sentinels};
use crate::nesting::{
    fault, lemma_fault_extends, lemma_limit_agrees, lemma_nest_step, nest, Nest,
};
use crate::token::{Delimiter, Lexeme, Token};

verus! {

/// A stage after rewriting, and whether it held a placeholder.
#[derive(Debug, Clone, PartialEq, Eq)]
pub struct RewriteResult {
    /// The stage with the carried name in the place of each placeholder.
    pub tokens: Vec<Token>,
    /// Whether at least one placeholder was replaced.
    pub found: bool,
}

/// A rewritten stage as plain values.
pub struct Rewritten {
    pub tokens: Seq<Lexeme>,
    pub found: bool,
}

impl View for RewriteResult {
    type V = Rewritten;

    open spec fn view(&self) -> Rewritten {
        Rewritten { tokens: self.tokens.deep_view(), found: self.found }
    }
}

impl DeepView for RewriteResult {
    type V = Rewritten;

    open spec fn deep_view(&self) -> Rewritten {
        self@
    }
}

/// The token that stands for `t` in a rewritten stage.
pub open spec fn swap(g: Sentinels, t: Lexeme) -> Lexeme {
    if t == Lexeme::Atom(g.placeholder) {
        Lexeme::Atom(g.carried)
    } else {
        t
    }
}

/// `s` with the carried name in the place of every placeholder, brackets and
/// all other tokens as they were.
pub open spec fn substitute(g: Sentinels, s: Seq<Lexeme>) -> Seq<Lexeme> {
    Seq::new(s.len(), |i: int| swap(g, s[i]))
}

/// Whether `s` holds a placeholder, inside a group or outside.
pub open spec fn mentions(g: Sentinels, s: Seq<Lexeme>) -> bool {
    exists|i: int| 0 <= i < s.len() && #[trigger] s[i] == Lexeme::Atom(g.placeholder)
}

/// The part of `s` that one call of the rewriter answers for: all of it when
/// `s` is the interior of a group, and what stands before the first separator
/// outside every group when it is not.
pub open spec fn scope(g: Sentinels, s: Seq<Lexeme>, is_nested: bool) -> Seq<Lexeme> {
    if is_nested {
        s
    } else {
        s.take(first_cut(g, s))
    }
}

/// What rewriting `s` gives: the fault of its scope, if the nesting there has
/// one, and else the scope with its placeholders replaced.
pub open spec fn rewritten(g: Sentinels, s: Seq<Lexeme>, is_nested: bool) -> Result<
    Rewritten,
    PipeError,
> {
    let own = scope(g, s, is_nested);
    match fault(own, g.max_depth) {
        Some(e) => Err(e),
        None => Ok(Rewritten { tokens: substitute(g, own), found: mentions(g, own) }),
    }
}

/// Replacing distributes over sequences on end.
pub proof fn lemma_substitute_concat(g: Sentinels, a: Seq<Lexeme>, b: Seq<Lexeme>)
    ensures
        substitute(g, a + b) == substitute(g, a) + substitute(g, b),
{
    assert(substitute(g, a + b) =~= substitute(g, a) + substitute(g, b));
}

/// A placeholder is in two sequences on end when it is in one of them.
pub proof fn lemma_mentions_concat(g: Sentinels, a: Seq<Lexeme>, b: Seq<Lexeme>)
    ensures
        mentions(g, a + b) == (mentions(g, a) || mentions(g, b)),
{
    let ab = a + b;
    if mentions(g, a) {
        let i = choose|i: int| 0 <= i < a.len() && #[trigger] a[i] == Lexeme::Atom(g.placeholder);
        assert(ab[i] == Lexeme::Atom(g.placeholder));
    }
    if mentions(g, b) {
        let i = choose|i: int| 0 <= i < b.len() && #[trigger] b[i] == Lexeme::Atom(g.placeholder);
        assert(ab[a.len() + i] == Lexeme::Atom(g.placeholder));
    }
    if mentions(g, ab) {
        let i = choose|i: int| 0 <= i < ab.len() && #[trigger] ab[i] == Lexeme::Atom(g.placeholder);
        if i < a.len() {
            assert(a[i] == Lexeme::Atom(g.placeholder));
        } else {
            assert(b[i - a.len()] == Lexeme::Atom(g.placeholder));
        }
    }
}

/// A bracket is no placeholder and is rewritten to itself.
pub proof fn lemma_bracket_kept(g: Sentinels, t: Lexeme)
    requires
        !(t is Atom),
    ensures
        substitute(g, seq![t]) == seq![t],
        !mentions(g, seq![t]),
{
    assert(substitute(g, seq![t]) =~= seq![t]);
}

/// One token is rewritten by `swap`, and mentions the placeholder if it is one.
pub proof fn lemma_single(g: Sentinels, t: Lexeme)
    ensures
        substitute(g, seq![t]) == seq![swap(g, t)],
        mentions(g, seq![t]) == (t == Lexeme::Atom(g.placeholder)),
{
    assert(substitute(g, seq![t]) =~= seq![swap(g, t)]);
    if t == Lexeme::Atom(g.placeholder) {
        assert(seq![t][0] == Lexeme::Atom(g.placeholder));
    }
}

/// Every placeholder of a stage, however many there are, becomes the one
/// carried name; every other token stays as it was, in its place.
pub proof fn lemma_every_placeholder_replaced(g: Sentinels, s: Seq<Lexeme>, i: int)
    requires
        0 <= i < s.len(),
    ensures
        substitute(g, s).len() == s.len(),
        s[i] == Lexeme::Atom(g.placeholder) ==> substitute(g, s)[i] == Lexeme::Atom(g.carried),
        s[i] != Lexeme::Atom(g.placeholder) ==> substitute(g, s)[i] == s[i],
{
}

/// A stage without a placeholder is rewritten to itself.
pub proof fn lemma_untouched(g: Sentinels, s: Seq<Lexeme>)
    requires
        !mentions(g, s),
    ensures
        substitute(g, s) == s,
{
    assert forall|i: int| 0 <= i < s.len() implies substitute(g, s)[i] == s[i] by {
        if s[i] == Lexeme::Atom(g.placeholder) {
            assert(mentions(g, s));
        }
    }
    assert(substitute(g, s) =~= s);
}

/// Where the carried name is not itself the placeholder, no placeholder is
/// left in a rewritten stage.
pub proof fn lemma_none_left(g: Sentinels, s: Seq<Lexeme>)
    requires
        g.carried != g.placeholder,
    ensures
        !mentions(g, substitute(g, s)),
{
    let out = substitute(g, s);
    if mentions(g, out) {
        let i = choose|i: int| 0 <= i < out.len() && #[trigger] out[i] == Lexeme::Atom(g.placeholder);
        assert(out[i] == swap(g, s[i]));
    }
}

/// Groups are transparent to rewriting: a group is rewritten to a group of
/// the same kind around its rewritten interior, whatever stands before and
/// behind it, and holds a placeholder exactly when its interior does.
pub proof fn lemma_group_transparent(
    g: Sentinels,
    before: Seq<Lexeme>,
    d: Delimiter,
    inside: Seq<Lexeme>,
    after: Seq<Lexeme>,
)
    ensures
        substitute(g, before + seq![Lexeme::Open(d)] + inside + seq![Lexeme::Close(d)] + after)
            == substitute(g, before) + seq![Lexeme::Open(d)] + substitute(g, inside)
            + seq![Lexeme::Close(d)] + substitute(g, after),
        mentions(g, before + seq![Lexeme::Open(d)] + inside + seq![Lexeme::Close(d)] + after) == (
        mentions(g, before) || mentions(g, inside) || mentions(g, after)),
{
    let open = seq![Lexeme::Open(d)];
    let shut = seq![Lexeme::Close(d)];
    lemma_bracket_kept(g, Lexeme::Open(d));
    lemma_bracket_kept(g, Lexeme::Close(d));
    lemma_substitute_concat(g, before, open);
    lemma_substitute_concat(g, before + open, inside);
    lemma_substitute_concat(g, before + open + inside, shut);
    lemma_substitute_concat(g, before + open + inside + shut, after);
    lemma_mentions_concat(g, before, open);
    lemma_mentions_concat(g, before + open, inside);
    lemma_mentions_concat(g, before + open + inside, shut);
    lemma_mentions_concat(g, before + open + inside + shut, after);
}

/// Rewriting changes atoms into atoms and nothing else, so the nesting of a
/// rewritten stage is that of the stage.
pub proof fn lemma_nesting_kept(g: Sentinels, s: Seq<Lexeme>, limit: Option<nat>)
    ensures
        nest(substitute(g, s), limit) == nest(s, limit),
    decreases s.len(),
{
    if s.len() > 0 {
        lemma_nesting_kept(g, s.drop_last(), limit);
        assert(substitute(g, s).drop_last() =~= substitute(g, s.drop_last()));
    }
}

/// What one run of the scanner hands back: the rewritten tokens, whether a
/// placeholder was among them, and the position at which it stopped.
struct Run {
    tokens: Vec<Token>,
    found: bool,
    next: usize,
}

/// Nothing cuts `s` before `k`, as far as this call has to split at all.
spec fn clear(g: Sentinels, s: Seq<Lexeme>, outer: bool, k: int) -> bool {
    outer || uncut(g, s, k)
}

/// A fault met at the end of `s.take(p)`, with nothing cut before, is what
/// rewriting `s` gives.
proof fn lemma_fault_reported(g: Sentinels, s: Seq<Lexeme>, outer: bool, p: int)
    requires
        0 <= p <= s.len(),
        clear(g, s, outer, p),
        !(nest(s.take(p), Some(g.max_depth)) is Within),
    ensures
        nest(scope(g, s, outer), Some(g.max_depth)) == nest(s.take(p), Some(g.max_depth)),
{
    if outer {
        lemma_fault_extends(s, p, Some(g.max_depth));
    } else {
        lemma_fault_before_cut(g, s, p, Some(g.max_depth));
    }
}

/// With nothing cut before the end, the scope is the whole sequence.
proof fn lemma_scope_whole(g: Sentinels, s: Seq<Lexeme>, outer: bool)
    requires
        clear(g, s, outer, s.len() as int),
    ensures
        scope(g, s, outer) == s,
{
    if !outer {
        lemma_first_cut_found(g, s, s.len() as int);
        assert(s.take(s.len() as int) =~= s);
    }
}

/// Inside a group nothing is a cut.
proof fn lemma_no_cut_inside(g: Sentinels, s: Seq<Lexeme>, i: int)
    requires
        0 <= i < s.len(),
        nest(s.take(i), Some(g.max_depth)) matches Nest::Within(stack) && stack.len() > 0,
    ensures
        !is_cut(g, s, i),
{
    lemma_limit_agrees(s.take(i), g.max_depth);
}

/// Scans `stage` from `start`, `depth` groups deep, up to the bracket that
/// closes the group it is in, the separator that ends the stage, or the end.
fn rewrite_run(
    g: &Grammar,
    stage: &Vec<Token>,
    start: usize,
    depth: usize,
    nested: bool,
    Ghost(outer): Ghost<bool>,
) -> (r: Result<Run, PipeError>)
    requires
        start <= stage.len(),
        nested == (outer || depth > 0),
        nest(stage.deep_view().take(start as int), Some(g@.max_depth)) matches Nest::Within(stack)
            && stack.len() == depth,
        clear(g@, stage.deep_view(), outer, start as int),
    ensures
        match r {
            Ok(run) => {
                let s = stage.deep_view();
                &&& start <= run.next <= stage.len()
                &&& nest(s.take(run.next as int), Some(g@.max_depth)) == nest(
                    s.take(start as int),
                    Some(g@.max_depth),
                )
                &&& clear(g@, s, outer, run.next as int)
                &&& run.next < stage.len() ==> (s[run.next as int] is Close || (!nested
                    && s[run.next as int] == Lexeme::Atom(g@.separator)))
                &&& run.tokens.deep_view() == substitute(g@, s.subrange(start as int, run.next as int))
                &&& run.found == mentions(g@, s.subrange(start as int, run.next as int))
            },
            Err(e) => fault(scope(g@, stage.deep_view(), outer), g@.max_depth) == Some(e),
        },
    decreases stage.len() - start,
{
    let ghost s = stage.deep_view();
    let ghost limit = Some(g@.max_depth);
    let ghost entry = nest(s.take(start as int), limit);
    let mut out: Vec<Token> = Vec::new();
    let mut found = false;
    let mut i: usize = start;
    proof {
        assert(s.subrange(start as int, start as int) =~= Seq::empty());
        assert(out.deep_view() =~= substitute(g@, Seq::empty()));
    }
    while i < stage.len()
        invariant
            s == stage.deep_view(),
            limit == Some(g@.max_depth),
            entry == nest(s.take(start as int), limit),
            entry matches Nest::Within(stack) && stack.len() == depth,
            nested == (outer || depth > 0),
            start <= i <= stage.len(),
            nest(s.take(i as int), limit) == entry,
            clear(g@, s, outer, i as int),
            out.deep_view() == substitute(g@, s.subrange(start as int, i as int)),
            found == mentions(g@, s.subrange(start as int, i as int)),
        decreases stage.len() - i,
    {
        let ghost seen = s.subrange(start as int, i as int);
        let ghost before = out.deep_view();
        proof {
            lemma_nest_step(Nest::Within(Seq::empty()), s, i as int, limit);
            assert(s[i as int] == stage@[i as int]@);
        }
        match &stage[i] {
            Token::Close(_) => {
                return Ok(Run { tokens: out, found, next: i });
            },
            Token::Open(d) => {
                if depth >= g.max_depth {
                    proof {
                        assert(!is_cut(g@, s, i as int));
                        lemma_fault_reported(g@, s, outer, i + 1);
                    }
                    return Err(PipeError::NestingTooDeep);
                }
                proof {
                    assert(!is_cut(g@, s, i as int));
                }
                let inner = match rewrite_run(g, stage, i + 1, depth + 1, true, Ghost(outer)) {
                    Ok(run) => run,
                    Err(e) => {
                        return Err(e);
                    },
                };
                let close = inner.next;
                if close >= stage.len() {
                    proof {
                        lemma_scope_whole(g@, s, outer);
                        assert(s.take(s.len() as int) =~= s);
                    }
                    return Err(PipeError::UnbalancedGroup);
                }
                proof {
                    lemma_nest_step(Nest::Within(Seq::empty()), s, close as int, limit);
                    assert(s[close as int] == stage@[close as int]@);
                    assert(!is_cut(g@, s, close as int));
                }
                let matched = match &stage[close] {
                    Token::Close(e) => *e == *d,
                    _ => false,
                };
                if !matched {
                    proof {
                        lemma_fault_reported(g@, s, outer, close + 1);
                    }
                    return Err(PipeError::UnbalancedGroup);
                }
                let mut interior = inner.tokens;
                out.push(Token::Open(*d));
                out.append(&mut interior);
                out.push(Token::Close(*d));
                found = found || inner.found;
                proof {
                    let open = seq![Lexeme::Open(*d)];
                    let shut = seq![Lexeme::Close(*d)];
                    let inside = s.subrange(i + 1, close as int);
                    assert(s.subrange(start as int, close + 1) =~= seen + open + inside + shut);
                    lemma_bracket_kept(g@, Lexeme::Open(*d));
                    lemma_bracket_kept(g@, Lexeme::Close(*d));
                    lemma_substitute_concat(g@, seen, open);
                    lemma_substitute_concat(g@, seen + open, inside);
                    lemma_substitute_concat(g@, seen + open + inside, shut);
                    lemma_mentions_concat(g@, seen, open);
                    lemma_mentions_concat(g@, seen + open, inside);
                    lemma_mentions_concat(g@, seen + open + inside, shut);
                    assert(out.deep_view() =~= before + open + substitute(g@, inside) + shut);
                    let stack = entry->Within_0;
                    assert(stack.push(*d).drop_last() =~= stack);
                }
                i = close + 1;
            },
            Token::Atom(_) => {
                if !nested && stage[i].is_atom(&g.separator) {
                    return Ok(Run { tokens: out, found, next: i });
                }
                if stage[i].is_atom(&g.placeholder) {
                    out.push(Token::Atom(g.carried.clone()));
                    found = true;
                } else {
                    out.push(stage[i].clone());
                }
                proof {
                    let one = seq![s[i as int]];
                    assert(s.subrange(start as int, i + 1) =~= seen + one);
                    lemma_single(g@, s[i as int]);
                    lemma_substitute_concat(g@, seen, one);
                    lemma_mentions_concat(g@, seen, one);
                    assert(out.deep_view() =~= before + seq![swap(g@, s[i as int])]);
                    if !outer && depth > 0 {
                        lemma_no_cut_inside(g@, s, i as int);
                    }
                    assert(!outer ==> !is_cut(g@, s, i as int));
                }
                i = i + 1;
            },
        }
    }
    Ok(Run { tokens: out, found, next: i })
}

/// Rewrites one stage: every placeholder of its scope, at any depth of
/// nesting, becomes the carried name, and the result says whether there was
/// one. With `is_nested` unset a separator outside every group ends the stage
/// and what follows it is left unread; with it set the separator is a token
/// like any other. A fault in the nesting of the scope is the error.
pub fn rewrite(g: &Grammar, stage: &Vec<Token>, is_nested: bool) -> (r: Result<
    RewriteResult,
    PipeError,
>)
    ensures
        match r {
            Ok(done) => rewritten(g@, stage.deep_view(), is_nested) == Ok::<Rewritten, PipeError>(
                done@,
            ),
            Err(e) => rewritten(g@, stage.deep_view(), is_nested) == Err::<Rewritten, PipeError>(e),
        },
{
    let ghost s = stage.deep_view();
    let ghost limit = Some(g@.max_depth);
    proof {
        assert(s.take(0) =~= Seq::empty());
    }
    let run = match rewrite_run(g, stage, 0, 0, is_nested, Ghost(is_nested)) {
        Ok(run) => run,
        Err(e) => {
            return Err(e);
        },
    };
    let stop = run.next;
    if stop < stage.len() {
        proof {
            lemma_nest_step(Nest::Within(Seq::empty()), s, stop as int, limit);
            assert(s[stop as int] == stage@[stop as int]@);
        }
        match &stage[stop] {
            Token::Close(_) => {
                proof {
                    assert(!is_cut(g@, s, stop as int));
                    lemma_fault_reported(g@, s, is_nested, stop + 1);
                }
                return Err(PipeError::UnbalancedGroup);
            },
            _ => {
                proof {
                    lemma_limit_agrees(s.take(stop as int), g@.max_depth);
                    assert(is_cut(g@, s, stop as int));
                    lemma_first_cut_found(g@, s, stop as int);
                    assert(s.subrange(0, stop as int) =~= s.take(stop as int));
                }
            },
        }
    } else {
        proof {
            lemma_scope_whole(g@, s, is_nested);
            assert(s.subrange(0, stop as int) =~= s);
            assert(s.take(stop as int) =~= s);
        }
    }
    Ok(RewriteResult { tokens: run.tokens, found: run.found })
}

} // verus!
