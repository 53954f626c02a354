//! The binding emitter: one binding of the carried name per stage, in a
//! block that yields the last of them.

use vstd::prelude::*;
use crate::grammar::{Grammar, Sentinels};
use crate::nesting::{balanced, lemma_balanced_concat, lemma_balanced_group, lemma_balanced_single};
use crate::rewrite::{lemma_untouched, mentions, rewritten, scope, substitute, RewriteResult, Rewritten};
use crate::token::{Delimiter, Lexeme, Token};

verus! {

/// The start of every binding: `let`, the carried name, `=`.
pub open spec fn binding_head(g: Sentinels) -> Seq<Lexeme> {
    seq![Lexeme::Atom("let"@), Lexeme::Atom(g.carried), Lexeme::Atom("="@)]
}

/// The end of a binding that calls its stage: the carried name in
/// parentheses, and a semicolon.
pub open spec fn call_tail(g: Sentinels) -> Seq<Lexeme> {
    seq![
        Lexeme::Open(Delimiter::Parenthesis),
        Lexeme::Atom(g.carried),
        Lexeme::Close(Delimiter::Parenthesis),
        Lexeme::Atom(";"@),
    ]
}

/// The binding of one stage. A stage that held a placeholder is bound as it
/// was rewritten; one that held none is called with the carried name as its
/// only argument.
pub open spec fn binding(g: Sentinels, stage: Rewritten) -> Seq<Lexeme> {
    if stage.found {
        binding_head(g) + stage.tokens + seq![Lexeme::Atom(";"@)]
    } else {
        binding_head(g) + stage.tokens + call_tail(g)
    }
}

/// The bindings of all stages, in order.
pub open spec fn bindings(g: Sentinels, stages: Seq<Rewritten>) -> Seq<Lexeme>
    decreases stages.len(),
{
    if stages.len() == 0 {
        Seq::empty()
    } else {
        bindings(g, stages.drop_last()) + binding(g, stages.last())
    }
}

/// The whole expression: a block that binds the carried name to the initial
/// expression, rebinds it once per stage, and yields it.
pub open spec fn emitted(g: Sentinels, initial: Seq<Lexeme>, stages: Seq<Rewritten>) -> Seq<
    Lexeme,
> {
    seq![Lexeme::Open(Delimiter::Brace)] + binding_head(g) + initial + seq![Lexeme::Atom(";"@)]
        + bindings(g, stages) + seq![Lexeme::Atom(g.carried), Lexeme::Close(Delimiter::Brace)]
}

/// A stage that holds no placeholder composes as a call: its binding is the
/// stage as it stands, applied to the carried name.
pub proof fn lemma_plain_stage_is_called(g: Sentinels, stage: Seq<Lexeme>, is_nested: bool)
    requires
        rewritten(g, stage, is_nested) is Ok,
        !mentions(g, scope(g, stage, is_nested)),
    ensures
        binding(g, rewritten(g, stage, is_nested)->Ok_0) == binding_head(g) + scope(
            g,
            stage,
            is_nested,
        ) + call_tail(g),
{
    lemma_untouched(g, scope(g, stage, is_nested));
}

/// A stage that holds a placeholder is substituted in place: its binding is
/// the stage with the carried name for each placeholder, and no call is put
/// around it.
pub proof fn lemma_marked_stage_is_substituted(g: Sentinels, stage: Seq<Lexeme>, is_nested: bool)
    requires
        rewritten(g, stage, is_nested) is Ok,
        mentions(g, scope(g, stage, is_nested)),
    ensures
        binding(g, rewritten(g, stage, is_nested)->Ok_0) == binding_head(g) + substitute(
            g,
            scope(g, stage, is_nested),
        ) + seq![Lexeme::Atom(";"@)],
{
}

/// The binding of a balanced stage is balanced.
pub proof fn lemma_binding_balanced(g: Sentinels, stage: Rewritten)
    requires
        balanced(stage.tokens),
    ensures
        balanced(binding(g, stage)),
{
    let word = seq![Lexeme::Atom("let"@)];
    let name = seq![Lexeme::Atom(g.carried)];
    let is = seq![Lexeme::Atom("="@)];
    let end = seq![Lexeme::Atom(";"@)];
    lemma_balanced_single(Lexeme::Atom("let"@));
    lemma_balanced_single(Lexeme::Atom(g.carried));
    lemma_balanced_single(Lexeme::Atom("="@));
    lemma_balanced_single(Lexeme::Atom(";"@));
    lemma_balanced_concat(word, name);
    lemma_balanced_concat(word + name, is);
    assert(binding_head(g) =~= word + name + is);
    lemma_balanced_concat(binding_head(g), stage.tokens);
    if stage.found {
        lemma_balanced_concat(binding_head(g) + stage.tokens, end);
    } else {
        lemma_balanced_group(Delimiter::Parenthesis, name);
        let call = seq![Lexeme::Open(Delimiter::Parenthesis)] + name + seq![
            Lexeme::Close(Delimiter::Parenthesis),
        ];
        lemma_balanced_concat(call, end);
        assert(call_tail(g) =~= call + end);
        lemma_balanced_concat(binding_head(g) + stage.tokens, call_tail(g));
    }
}

/// The bindings of balanced stages are balanced.
pub proof fn lemma_bindings_balanced(g: Sentinels, stages: Seq<Rewritten>)
    requires
        forall|k: int| 0 <= k < stages.len() ==> balanced((#[trigger] stages[k]).tokens),
    ensures
        balanced(bindings(g, stages)),
    decreases stages.len(),
{
    if stages.len() > 0 {
        let front = stages.drop_last();
        assert forall|k: int| 0 <= k < front.len() implies balanced((#[trigger] front[k]).tokens) by {
            assert(front[k] == stages[k]);
        }
        lemma_bindings_balanced(g, front);
        lemma_binding_balanced(g, stages.last());
        lemma_balanced_concat(bindings(g, front), binding(g, stages.last()));
    }
}

/// What is emitted for a balanced initial expression and balanced stages is
/// balanced: one block, closed by the brace that opened it.
pub proof fn lemma_emitted_balanced(g: Sentinels, initial: Seq<Lexeme>, stages: Seq<Rewritten>)
    requires
        balanced(initial),
        forall|k: int| 0 <= k < stages.len() ==> balanced((#[trigger] stages[k]).tokens),
    ensures
        balanced(emitted(g, initial, stages)),
{
    let first = Rewritten { tokens: initial, found: true };
    lemma_binding_balanced(g, first);
    lemma_bindings_balanced(g, stages);
    lemma_balanced_single(Lexeme::Atom(g.carried));
    let name = seq![Lexeme::Atom(g.carried)];
    let inside = binding(g, first) + bindings(g, stages) + name;
    lemma_balanced_concat(binding(g, first), bindings(g, stages));
    lemma_balanced_concat(binding(g, first) + bindings(g, stages), name);
    lemma_balanced_group(Delimiter::Brace, inside);
    assert(emitted(g, initial, stages) =~= seq![Lexeme::Open(Delimiter::Brace)] + inside + seq![
        Lexeme::Close(Delimiter::Brace),
    ]);
}

/// `out` with copies of the tokens of `more` behind it.
fn extended(out: Vec<Token>, more: &Vec<Token>) -> (all: Vec<Token>)
    ensures
        all.deep_view() == out.deep_view() + more.deep_view(),
{
    let ghost base = out.deep_view();
    let mut all = out;
    let mut i: usize = 0;
    proof {
        assert(all.deep_view() =~= base + more.deep_view().take(0));
    }
    while i < more.len()
        invariant
            0 <= i <= more.len(),
            all.deep_view() == base + more.deep_view().take(i as int),
        decreases more.len() - i,
    {
        let ghost before = all.deep_view();
        all.push(more[i].clone());
        proof {
            assert(all.deep_view() =~= before.push(more.deep_view()[i as int]));
            assert(base + more.deep_view().take(i + 1) =~= before.push(more.deep_view()[i as int]));
        }
        i = i + 1;
    }
    proof {
        assert(more.deep_view().take(i as int) =~= more.deep_view());
    }
    all
}

/// `out` with `let`, the carried name and `=` behind it.
fn with_head(g: &Grammar, out: Vec<Token>) -> (all: Vec<Token>)
    ensures
        all.deep_view() == out.deep_view() + binding_head(g@),
{
    let ghost base = out.deep_view();
    let mut all = out;
    all.push(Token::atom("let"));
    all.push(Token::Atom(g.carried.clone()));
    all.push(Token::atom("="));
    proof {
        assert(all.deep_view() =~= base + binding_head(g@));
    }
    all
}

/// `out` with the binding of `stage` behind it.
fn with_binding(g: &Grammar, out: Vec<Token>, stage: &RewriteResult) -> (all: Vec<Token>)
    ensures
        all.deep_view() == out.deep_view() + binding(g@, stage@),
{
    let ghost base = out.deep_view();
    let mut all = with_head(g, out);
    all = extended(all, &stage.tokens);
    let ghost body = all.deep_view();
    if !stage.found {
        all.push(Token::Open(Delimiter::Parenthesis));
        all.push(Token::Atom(g.carried.clone()));
        all.push(Token::Close(Delimiter::Parenthesis));
    }
    all.push(Token::atom(";"));
    proof {
        if stage.found {
            assert(all.deep_view() =~= body + seq![Lexeme::Atom(";"@)]);
        } else {
            assert(all.deep_view() =~= body + call_tail(g@));
        }
        assert(all.deep_view() =~= base + binding(g@, stage@));
    }
    all
}

/// The binding of one rewritten stage: the stage itself where it held a
/// placeholder, a call of it on the carried name where it held none.
pub fn bind(g: &Grammar, stage: &RewriteResult) -> (out: Vec<Token>)
    ensures
        out.deep_view() == binding(g@, stage@),
{
    let out = with_binding(g, Vec::new(), stage);
    proof {
        assert(Seq::<Lexeme>::empty() + binding(g@, stage@) =~= binding(g@, stage@));
    }
    out
}

/// The expression that a pipeline stands for: a block that binds the
/// carried name to the initial expression, rebinds it to each stage in turn,
/// and yields the last binding.
pub fn emit(g: &Grammar, initial: &Vec<Token>, stages: &Vec<RewriteResult>) -> (out: Vec<Token>)
    ensures
        out.deep_view() == emitted(g@, initial.deep_view(), stages.deep_view()),
{
    let ghost open = seq![Lexeme::Open(Delimiter::Brace)] + binding_head(g@) + initial.deep_view()
        + seq![Lexeme::Atom(";"@)];
    let mut out: Vec<Token> = Vec::new();
    out.push(Token::Open(Delimiter::Brace));
    out = with_head(g, out);
    out = extended(out, initial);
    let ghost start = out.deep_view();
    out.push(Token::atom(";"));
    proof {
        assert(out.deep_view() =~= start.push(Lexeme::Atom(";"@)));
        assert(stages.deep_view().take(0).len() == 0);
        assert(out.deep_view() =~= open + bindings(g@, stages.deep_view().take(0)));
    }
    let mut k: usize = 0;
    while k < stages.len()
        invariant
            0 <= k <= stages.len(),
            out.deep_view() == open + bindings(g@, stages.deep_view().take(k as int)),
        decreases stages.len() - k,
    {
        let ghost done = stages.deep_view().take(k as int);
        out = with_binding(g, out, &stages[k]);
        proof {
            let more = stages.deep_view().take(k + 1);
            assert(more.drop_last() =~= done);
            assert(more.last() == stages@[k as int]@);
            assert(out.deep_view() =~= open + bindings(g@, more));
        }
        k = k + 1;
    }
    let ghost body = out.deep_view();
    out.push(Token::Atom(g.carried.clone()));
    out.push(Token::Close(Delimiter::Brace));
    proof {
        assert(stages.deep_view().take(k as int) =~= stages.deep_view());
        assert(out.deep_view() =~= body + seq![
            Lexeme::Atom(g@.carried),
            Lexeme::Close(Delimiter::Brace),
        ]);
    }
    out
}

} // verus!
