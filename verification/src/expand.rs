//! The transformer from end to end: split, rewrite each stage, emit.

use vstd::prelude::*;
use crate::emit::{emit, emitted, lemma_emitted_balanced};
use crate::error::PipeError;
use crate::grammar::{standard_sentinels, Grammar, Sentinels};
use crate::cut::lemma_first_cut_found;
use crate::nesting::{balanced, lemma_limit_only_deepens};
use crate::rewrite::{lemma_nesting_kept, rewrite, rewritten, scope, RewriteResult, Rewritten};
use crate::split::{has_gap, lemma_segments_nonempty, lemma_segments_whole, segments, carve, split_of, whole, Parts};
use crate::token::{Lexeme, Token};

verus! {

/// The stages rewritten in order, or the error of the first one that cannot
/// be rewritten.
pub open spec fn rewrite_each(g: Sentinels, stages: Seq<Seq<Lexeme>>) -> Result<
    Seq<Rewritten>,
    PipeError,
>
    decreases stages.len(),
{
    if stages.len() == 0 {
        Ok(Seq::empty())
    } else {
        match rewrite_each(g, stages.drop_last()) {
            Err(e) => Err(e),
            Ok(done) => match rewritten(g, stages.last(), false) {
                Err(e) => Err(e),
                Ok(stage) => Ok(done.push(stage)),
            },
        }
    }
}

/// What a pipeline expands to: unbalanced brackets are refused as such;
/// then comes the error of the split, then that of the first stage that
/// cannot be rewritten; a pipeline with none of these becomes the emitted
/// block.
pub open spec fn expansion(g: Sentinels, s: Seq<Lexeme>) -> Result<Seq<Lexeme>, PipeError> {
    if !balanced(s) {
        Err(PipeError::UnbalancedGroup)
    } else {
        match split_of(g, s) {
            Err(e) => Err(e),
            Ok(parts) => match rewrite_each(g, parts.stages) {
                Err(e) => Err(e),
                Ok(stages) => Ok(emitted(g, parts.initial, stages)),
            },
        }
    }
}

/// Expands a pipeline written in the grammar `g` into one block expression,
/// or says what is wrong with it. There is no partial result.
pub fn expand(g: &Grammar, tokens: &Vec<Token>) -> (r: Result<Vec<Token>, PipeError>)
    ensures
        match r {
            Ok(out) => expansion(g@, tokens.deep_view()) == Ok::<Seq<Lexeme>, PipeError>(
                out.deep_view(),
            ),
            Err(e) => expansion(g@, tokens.deep_view()) == Err::<Seq<Lexeme>, PipeError>(e),
        },
{
    let parts = match carve(g, tokens) {
        Ok(parts) => parts,
        Err(e) => {
            return Err(e);
        },
    };
    let ghost raw = parts.stages.deep_view();
    let mut stages: Vec<RewriteResult> = Vec::new();
    let mut k: usize = 0;
    proof {
        assert(raw.take(0) =~= Seq::empty());
        assert(stages.deep_view() =~= Seq::empty());
    }
    while k < parts.stages.len()
        invariant
            split_of(g@, tokens.deep_view()) == Ok::<Parts, PipeError>(parts@),
            raw == parts.stages.deep_view(),
            0 <= k <= parts.stages.len(),
            rewrite_each(g@, raw.take(k as int)) == Ok::<Seq<Rewritten>, PipeError>(
                stages.deep_view(),
            ),
        decreases parts.stages.len() - k,
    {
        let ghost done = stages.deep_view();
        proof {
            assert(raw.take(k + 1).drop_last() =~= raw.take(k as int));
            assert(raw.take(k + 1).last() == parts.stages@[k as int].deep_view());
        }
        match rewrite(g, &parts.stages[k], false) {
            Ok(stage) => {
                stages.push(stage);
                proof {
                    assert(stages.deep_view() =~= done.push(stage@));
                }
            },
            Err(e) => {
                proof {
                    assert(rewrite_each(g@, raw.take(k + 1)) == Err::<Seq<Rewritten>, PipeError>(e));
                    lemma_rewrite_each_fails(g@, raw, k + 1);
                }
                return Err(e);
            },
        }
        k = k + 1;
    }
    proof {
        assert(raw.take(k as int) =~= raw);
    }
    Ok(emit(g, &parts.initial, &stages))
}

/// Expands a pipeline written with `=>` between its stages and `_` for the
/// value of the previous stage; the value is carried under the name `ret`.
pub fn pipe(input: &Vec<Token>) -> (r: Result<Vec<Token>, PipeError>)
    ensures
        match r {
            Ok(out) => expansion(standard_sentinels(), input.deep_view()) == Ok::<
                Seq<Lexeme>,
                PipeError,
            >(out.deep_view()),
            Err(e) => expansion(standard_sentinels(), input.deep_view()) == Err::<
                Seq<Lexeme>,
                PipeError,
            >(e),
        },
{
    let g = Grammar::standard();
    expand(&g, input)
}

/// A whole stage is rewritten from end to end, and nothing but its depth can
/// be in the way.
pub proof fn lemma_whole_stage(g: Sentinels, stage: Seq<Lexeme>)
    requires
        whole(g, stage),
    ensures
        scope(g, stage, false) == stage,
        rewritten(g, stage, false) is Err ==> rewritten(g, stage, false) == Err::<
            Rewritten,
            PipeError,
        >(PipeError::NestingTooDeep),
{
    lemma_first_cut_found(g, stage, stage.len() as int);
    assert(stage.take(stage.len() as int) =~= stage);
    lemma_limit_only_deepens(stage, g.max_depth);
}

/// Whole stages are rewritten one and all unless one of them is too deep.
pub proof fn lemma_whole_stages(g: Sentinels, stages: Seq<Seq<Lexeme>>)
    requires
        forall|k: int| 0 <= k < stages.len() ==> whole(g, #[trigger] stages[k]),
    ensures
        rewrite_each(g, stages) is Err ==> rewrite_each(g, stages) == Err::<
            Seq<Rewritten>,
            PipeError,
        >(PipeError::NestingTooDeep),
    decreases stages.len(),
{
    if stages.len() > 0 {
        let front = stages.drop_last();
        assert forall|k: int| 0 <= k < front.len() implies whole(g, #[trigger] front[k]) by {
            assert(front[k] == stages[k]);
        }
        lemma_whole_stages(g, front);
        lemma_whole_stage(g, stages.last());
    }
}

/// Which error a pipeline is refused with. It is unbalanced exactly when
/// its brackets are; malformed exactly when they are balanced and a piece is
/// empty; and any other refusal is for a stage that is nested too deeply.
pub proof fn lemma_expansion_errors(g: Sentinels, s: Seq<Lexeme>)
    ensures
        expansion(g, s) == Err::<Seq<Lexeme>, PipeError>(PipeError::UnbalancedGroup)
            <==> !balanced(s),
        expansion(g, s) == Err::<Seq<Lexeme>, PipeError>(PipeError::MalformedPipeline)
            <==> balanced(s) && has_gap(segments(g, s)),
        expansion(g, s) == Err::<Seq<Lexeme>, PipeError>(PipeError::NestingTooDeep)
            <==> balanced(s) && !has_gap(segments(g, s)) && rewrite_each(
            g,
            segments(g, s).skip(1),
        ) is Err,
{
    if balanced(s) {
        let parts = segments(g, s);
        lemma_segments_nonempty(g, s);
        lemma_segments_whole(g, s);
        let stages = parts.skip(1);
        assert forall|k: int| 0 <= k < stages.len() implies whole(g, #[trigger] stages[k]) by {
            assert(stages[k] == parts[k + 1]);
        }
        lemma_whole_stages(g, stages);
    }
}

/// Where all stages can be rewritten, each result is that of its own stage.
pub proof fn lemma_rewrite_each_pointwise(g: Sentinels, stages: Seq<Seq<Lexeme>>)
    requires
        rewrite_each(g, stages) is Ok,
    ensures
        rewrite_each(g, stages)->Ok_0.len() == stages.len(),
        forall|k: int|
            0 <= k < stages.len() ==> rewritten(g, #[trigger] stages[k], false) == Ok::<
                Rewritten,
                PipeError,
            >(rewrite_each(g, stages)->Ok_0[k]),
    decreases stages.len(),
{
    if stages.len() > 0 {
        lemma_rewrite_each_pointwise(g, stages.drop_last());
        let done = rewrite_each(g, stages.drop_last())->Ok_0;
        let all = rewrite_each(g, stages)->Ok_0;
        assert forall|k: int| 0 <= k < stages.len() implies rewritten(
            g,
            #[trigger] stages[k],
            false,
        ) == Ok::<Rewritten, PipeError>(all[k]) by {
            if k < stages.len() - 1 {
                assert(stages[k] == stages.drop_last()[k]);
                assert(all[k] == done[k]);
            }
        }
    }
}

/// There is no partial result: what a pipeline expands to is one balanced
/// block.
pub proof fn lemma_expansion_balanced(g: Sentinels, s: Seq<Lexeme>)
    requires
        expansion(g, s) is Ok,
    ensures
        balanced(expansion(g, s)->Ok_0),
{
    let parts = segments(g, s);
    lemma_segments_nonempty(g, s);
    lemma_segments_whole(g, s);
    let stages = parts.skip(1);
    lemma_rewrite_each_pointwise(g, stages);
    let done = rewrite_each(g, stages)->Ok_0;
    assert forall|k: int| 0 <= k < done.len() implies balanced((#[trigger] done[k]).tokens) by {
        assert(stages[k] == parts[k + 1]);
        lemma_whole_stage(g, stages[k]);
        lemma_nesting_kept(g, stages[k], None);
    }
    lemma_emitted_balanced(g, parts[0], done);
}

/// Once a stage has failed, the stages behind it change nothing.
proof fn lemma_rewrite_each_fails(g: Sentinels, stages: Seq<Seq<Lexeme>>, k: int)
    requires
        0 <= k <= stages.len(),
        rewrite_each(g, stages.take(k)) is Err,
    ensures
        rewrite_each(g, stages) == rewrite_each(g, stages.take(k)),
    decreases stages.len() - k,
{
    if k < stages.len() {
        assert(stages.take(k + 1).drop_last() =~= stages.take(k));
        lemma_rewrite_each_fails(g, stages, k + 1);
    } else {
        assert(stages.take(k) =~= stages);
    }
}

} // verus!
