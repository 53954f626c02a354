//! The stage splitter: cuts a pipeline at the separators that stand outside
//! every group.

use vstd::prelude::*;
use crate::cut::{first_cut, is_cut, lemma_cut_shift, lemma_first_cut, lemma_first_cut_found, uncut};
use crate::error::PipeError;
use crate::grammar::{Grammar, Sentinels};
use crate::nesting::{
    balanced, lemma_balanced_concat, lemma_balanced_single, lemma_fault_extends, lemma_nest_concat,
    lemma_nest_step, lemma_top_is_empty, nest, Nest,
};
use crate::token::{Delimiter, Lexeme, Token};

verus! {

/// A pipeline cut into its initial expression and its stages, in order.
#[derive(Debug, Clone, PartialEq, Eq)]
pub struct Split {
    pub initial: Vec<Token>,
    pub stages: Vec<Vec<Token>>,
}

/// A cut pipeline as plain values.
pub struct Parts {
    pub initial: Seq<Lexeme>,
    pub stages: Seq<Seq<Lexeme>>,
}

impl View for Split {
    type V = Parts;

    open spec fn view(&self) -> Parts {
        Parts { initial: self.initial.deep_view(), stages: self.stages.deep_view() }
    }
}

/// The pieces that the cuts of `s` leave, in order: what stands before the
/// first cut, then the pieces of what stands behind it.
pub open spec fn segments(g: Sentinels, s: Seq<Lexeme>) -> Seq<Seq<Lexeme>>
    decreases s.len(),
{
    let c = first_cut(g, s);
    if 0 <= c < s.len() {
        seq![s.take(c)] + segments(g, s.skip(c + 1))
    } else {
        seq![s]
    }
}

/// One of the pieces is empty.
pub open spec fn has_gap(parts: Seq<Seq<Lexeme>>) -> bool {
    exists|k: int| 0 <= k < parts.len() && (#[trigger] parts[k]).len() == 0
}

/// What splitting `s` gives. A pipeline whose brackets are unbalanced or
/// which has an empty piece, as an empty input has, is malformed; any other
/// has an initial expression and any number of stages.
pub open spec fn split_of(g: Sentinels, s: Seq<Lexeme>) -> Result<Parts, PipeError> {
    let parts = segments(g, s);
    if !balanced(s) || has_gap(parts) {
        Err(PipeError::MalformedPipeline)
    } else {
        Ok(Parts { initial: parts[0], stages: parts.skip(1) })
    }
}

/// The pieces of a pipeline written out again, a separator between each two.
pub open spec fn chain(g: Sentinels, parts: Seq<Seq<Lexeme>>) -> Seq<Lexeme>
    decreases parts.len(),
{
    if parts.len() == 0 {
        Seq::empty()
    } else if parts.len() == 1 {
        parts[0]
    } else {
        parts[0] + seq![Lexeme::Atom(g.separator)] + chain(g, parts.skip(1))
    }
}

/// A piece that could stand between two cuts: balanced, with no cut of its own.
pub open spec fn whole(g: Sentinels, piece: Seq<Lexeme>) -> bool {
    balanced(piece) && uncut(g, piece, piece.len() as int)
}

/// There is always a first piece.
pub proof fn lemma_segments_nonempty(g: Sentinels, s: Seq<Lexeme>)
    ensures
        segments(g, s).len() >= 1,
    decreases s.len(),
{
    let c = first_cut(g, s);
    if 0 <= c < s.len() {
        lemma_segments_nonempty(g, s.skip(c + 1));
    }
}

/// A sequence that nothing cuts is its own single piece.
pub proof fn lemma_segments_single(g: Sentinels, s: Seq<Lexeme>)
    requires
        uncut(g, s, s.len() as int),
    ensures
        segments(g, s) == seq![s],
{
    lemma_first_cut_found(g, s, s.len() as int);
}

/// Splitting `head`, a separator and `rest` on end gives `head` and then the
/// pieces of `rest`.
pub proof fn lemma_segments_head(g: Sentinels, head: Seq<Lexeme>, rest: Seq<Lexeme>)
    requires
        whole(g, head),
    ensures
        segments(g, head + seq![Lexeme::Atom(g.separator)] + rest) == seq![head] + segments(
            g,
            rest,
        ),
{
    let s = head + seq![Lexeme::Atom(g.separator)] + rest;
    let n = head.len() as int;
    assert(s.take(n) =~= head);
    assert(is_cut(g, s, n));
    assert forall|i: int| 0 <= i < n implies !#[trigger] is_cut(g, s, i) by {
        assert(s.take(i) =~= head.take(i));
        assert(!is_cut(g, head, i));
    }
    lemma_first_cut_found(g, s, n);
    assert(s.skip(n + 1) =~= rest);
}

/// Whole pieces chained together are balanced.
pub proof fn lemma_chain_balanced(g: Sentinels, parts: Seq<Seq<Lexeme>>)
    requires
        forall|k: int| 0 <= k < parts.len() ==> balanced(#[trigger] parts[k]),
    ensures
        balanced(chain(g, parts)),
    decreases parts.len(),
{
    if parts.len() == 0 {
    } else if parts.len() == 1 {
    } else {
        let tail = parts.skip(1);
        assert forall|k: int| 0 <= k < tail.len() implies balanced(#[trigger] tail[k]) by {
            assert(tail[k] == parts[k + 1]);
        }
        lemma_chain_balanced(g, tail);
        lemma_balanced_single(Lexeme::Atom(g.separator));
        lemma_balanced_concat(parts[0], seq![Lexeme::Atom(g.separator)]);
        lemma_balanced_concat(parts[0] + seq![Lexeme::Atom(g.separator)], chain(g, tail));
    }
}

/// Splitting is the inverse of chaining: whole pieces, chained with
/// separators, split into exactly those pieces, however many tokens each has.
pub proof fn lemma_segments_of_chain(g: Sentinels, parts: Seq<Seq<Lexeme>>)
    requires
        parts.len() >= 1,
        forall|k: int| 0 <= k < parts.len() ==> whole(g, #[trigger] parts[k]),
    ensures
        segments(g, chain(g, parts)) == parts,
    decreases parts.len(),
{
    if parts.len() == 1 {
        lemma_segments_single(g, parts[0]);
        assert(seq![parts[0]] =~= parts);
    } else {
        let tail = parts.skip(1);
        assert forall|k: int| 0 <= k < tail.len() implies whole(g, #[trigger] tail[k]) by {
            assert(tail[k] == parts[k + 1]);
        }
        lemma_segments_of_chain(g, tail);
        lemma_segments_head(g, parts[0], chain(g, tail));
        assert(seq![parts[0]] + tail =~= parts);
    }
}

/// Chaining is the inverse of splitting: the pieces of any sequence, chained
/// with separators, are that sequence.
pub proof fn lemma_chain_of_segments(g: Sentinels, s: Seq<Lexeme>)
    ensures
        chain(g, segments(g, s)) == s,
    decreases s.len(),
{
    let c = first_cut(g, s);
    if 0 <= c < s.len() {
        let rest = s.skip(c + 1);
        lemma_chain_of_segments(g, rest);
        lemma_segments_nonempty(g, rest);
        let parts = seq![s.take(c)] + segments(g, rest);
        assert(parts.skip(1) =~= segments(g, rest));
        lemma_first_cut(g, s);
        assert(s =~= s.take(c) + seq![Lexeme::Atom(g.separator)] + rest);
    }
}

/// Every piece of a balanced sequence is whole.
pub proof fn lemma_segments_whole(g: Sentinels, s: Seq<Lexeme>)
    requires
        balanced(s),
    ensures
        forall|k: int| 0 <= k < segments(g, s).len() ==> whole(g, #[trigger] segments(g, s)[k]),
    decreases s.len(),
{
    let c = first_cut(g, s);
    lemma_first_cut(g, s);
    if 0 <= c < s.len() {
        let head = s.take(c);
        let rest = s.skip(c + 1);
        assert forall|i: int| 0 <= i < head.len() implies !#[trigger] is_cut(g, head, i) by {
            assert(head.take(i) =~= s.take(i));
            assert(!is_cut(g, s, i));
        }
        assert(balanced(rest)) by {
            lemma_nest_step(Nest::Within(Seq::empty()), s, c, None);
            lemma_top_is_empty(nest(s.take(c), None));
            assert(s =~= s.take(c + 1) + rest);
            lemma_nest_concat(Nest::Within(Seq::empty()), s.take(c + 1), rest, None);
        }
        lemma_segments_whole(g, rest);
        let parts = segments(g, s);
        assert forall|k: int| 0 <= k < parts.len() implies whole(g, #[trigger] parts[k]) by {
            if k > 0 {
                assert(parts[k] == segments(g, rest)[k - 1]);
            }
        }
    } else {
        assert(s.take(s.len() as int) =~= s);
    }
}

/// A pipeline of an initial expression and two stages, each of them whole
/// and not empty, splits into exactly these three.
pub proof fn lemma_split_three(g: Sentinels, a: Seq<Lexeme>, b: Seq<Lexeme>, c: Seq<Lexeme>)
    requires
        whole(g, a) && a.len() > 0,
        whole(g, b) && b.len() > 0,
        whole(g, c) && c.len() > 0,
    ensures
        split_of(
            g,
            a + seq![Lexeme::Atom(g.separator)] + b + seq![Lexeme::Atom(g.separator)] + c,
        ) == Ok::<Parts, PipeError>(Parts { initial: a, stages: seq![b, c] }),
{
    let sep = seq![Lexeme::Atom(g.separator)];
    let parts = seq![a, b, c];
    assert(parts.skip(1) =~= seq![b, c]);
    assert(parts.skip(1).skip(1) =~= seq![c]);
    assert(chain(g, seq![c]) == c);
    assert(chain(g, seq![b, c]) == b + sep + c) by {
        assert(seq![b, c].skip(1) =~= seq![c]);
    }
    assert(chain(g, parts) == a + sep + (b + sep + c));
    assert(a + sep + (b + sep + c) =~= a + sep + b + sep + c);
    lemma_segments_of_chain(g, parts);
    lemma_chain_balanced(g, parts);
    assert(!has_gap(parts));
}

/// Adding a piece adds a gap exactly when the piece is empty.
proof fn lemma_gap_push(parts: Seq<Seq<Lexeme>>, piece: Seq<Lexeme>)
    ensures
        has_gap(parts.push(piece)) == (has_gap(parts) || piece.len() == 0),
{
    let more = parts.push(piece);
    if has_gap(parts) {
        let k = choose|k: int| 0 <= k < parts.len() && (#[trigger] parts[k]).len() == 0;
        assert(more[k].len() == 0);
    }
    if piece.len() == 0 {
        assert(more[parts.len() as int].len() == 0);
    }
    if has_gap(more) {
        let k = choose|k: int| 0 <= k < more.len() && (#[trigger] more[k]).len() == 0;
        if k < parts.len() {
            assert(parts[k].len() == 0);
        }
    }
}

/// Cuts a pipeline at the separators that stand outside every group, and
/// tells unbalanced brackets from an empty piece.
pub(crate) fn carve(g: &Grammar, tokens: &Vec<Token>) -> (r: Result<Split, PipeError>)
    ensures
        match r {
            Ok(parts) => split_of(g@, tokens.deep_view()) == Ok::<Parts, PipeError>(parts@),
            Err(e) => if balanced(tokens.deep_view()) {
                e == PipeError::MalformedPipeline && has_gap(segments(g@, tokens.deep_view()))
            } else {
                e == PipeError::UnbalancedGroup
            },
        },
{
    let ghost s = tokens.deep_view();
    let mut stack: Vec<Delimiter> = Vec::new();
    let mut pieces: Vec<Vec<Token>> = Vec::new();
    let mut piece: Vec<Token> = Vec::new();
    let mut gap = false;
    let ghost mut begin: int = 0;
    let mut i: usize = 0;
    proof {
        assert(s.take(0) =~= Seq::empty());
        assert(s.skip(0) =~= s);
        assert(pieces.deep_view() + segments(g@, s) =~= segments(g@, s));
        assert(piece.deep_view() =~= s.subrange(0, 0));
    }
    while i < tokens.len()
        invariant
            s == tokens.deep_view(),
            0 <= begin <= i <= tokens.len(),
            nest(s.take(i as int), None) == Nest::Within(stack@),
            balanced(s.take(begin)),
            segments(g@, s) == pieces.deep_view() + segments(g@, s.skip(begin)),
            uncut(g@, s.skip(begin), i - begin),
            piece.deep_view() == s.subrange(begin, i as int),
            gap == has_gap(pieces.deep_view()),
        decreases tokens.len() - i,
    {
        let ghost done = pieces.deep_view();
        let ghost part = piece.deep_view();
        proof {
            lemma_nest_step(Nest::Within(Seq::empty()), s, i as int, None);
            assert(s[i as int] == tokens@[i as int]@);
            lemma_cut_shift(g@, s, begin, i - begin);
        }
        match &tokens[i] {
            Token::Open(d) => {
                stack.push(*d);
                piece.push(Token::Open(*d));
                proof {
                    assert(piece.deep_view() =~= part.push(s[i as int]));
                    assert(s.subrange(begin, i + 1) =~= part.push(s[i as int]));
                }
            },
            Token::Close(d) => {
                let ghost open = stack@;
                let top = stack.pop();
                let matched = match top {
                    Some(kind) => kind == *d,
                    None => false,
                };
                if !matched {
                    proof {
                        lemma_fault_extends(s, i + 1, None);
                    }
                    return Err(PipeError::UnbalancedGroup);
                }
                piece.push(Token::Close(*d));
                proof {
                    assert(piece.deep_view() =~= part.push(s[i as int]));
                    assert(s.subrange(begin, i + 1) =~= part.push(s[i as int]));
                    assert(stack@ =~= open.drop_last());
                }
            },
            Token::Atom(_) => {
                if stack.len() == 0 && tokens[i].is_atom(&g.separator) {
                    proof {
                        assert(is_cut(g@, s, i as int));
                        let rest = s.skip(begin);
                        lemma_first_cut_found(g@, rest, i - begin);
                        assert(rest.take(i - begin) =~= part);
                        assert(rest.skip(i - begin + 1) =~= s.skip(i + 1));
                        assert(done + (seq![part] + segments(g@, s.skip(i + 1))) =~= done.push(
                            part,
                        ) + segments(g@, s.skip(i + 1)));
                        lemma_gap_push(done, part);
                        begin = i + 1;
                    }
                    if piece.len() == 0 {
                        gap = true;
                    }
                    pieces.push(piece);
                    piece = Vec::new();
                    proof {
                        assert(pieces.deep_view() =~= done.push(part));
                        assert(piece.deep_view() =~= s.subrange(i + 1, i + 1));
                    }
                } else {
                    piece.push(tokens[i].clone());
                    proof {
                        assert(piece.deep_view() =~= part.push(s[i as int]));
                        assert(s.subrange(begin, i + 1) =~= part.push(s[i as int]));
                    }
                }
            },
        }
        i = i + 1;
    }
    proof {
        assert(s.take(i as int) =~= s);
    }
    if stack.len() != 0 {
        return Err(PipeError::UnbalancedGroup);
    }
    let ghost done = pieces.deep_view();
    let ghost part = piece.deep_view();
    proof {
        let rest = s.skip(begin);
        lemma_segments_single(g@, rest);
        assert(rest =~= part);
        assert(done + seq![part] =~= done.push(part));
        lemma_gap_push(done, part);
    }
    if piece.len() == 0 {
        gap = true;
    }
    pieces.push(piece);
    proof {
        assert(pieces.deep_view() =~= done.push(part));
    }
    if gap {
        return Err(PipeError::MalformedPipeline);
    }
    let ghost all = pieces.deep_view();
    let initial = pieces.remove(0);
    proof {
        assert(pieces.deep_view() =~= all.skip(1));
    }
    Ok(Split { initial, stages: pieces })
}

/// Splits a pipeline into its initial expression and its stages at the
/// separators that stand outside every group. Separators inside a group stay
/// where they are. Refuses unbalanced brackets, an empty input, and a
/// separator with nothing on one of its sides.
pub fn split(g: &Grammar, tokens: &Vec<Token>) -> (r: Result<Split, PipeError>)
    ensures
        match r {
            Ok(parts) => split_of(g@, tokens.deep_view()) == Ok::<Parts, PipeError>(parts@),
            Err(e) => split_of(g@, tokens.deep_view()) == Err::<Parts, PipeError>(e),
        },
{
    match carve(g, tokens) {
        Ok(parts) => Ok(parts),
        Err(_) => Err(PipeError::MalformedPipeline),
    }
}

} // verus!
