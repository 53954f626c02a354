use pipeline::emit::{bind, emit};
use pipeline::{rewrite, split, Delimiter, Grammar, PipeError, RewriteResult, Split, Token};

/// Reads tokens written with a blank between each two.
fn toks(text: &str) -> Vec<Token> {
    text.split_whitespace()
        .map(|word| match word {
            "(" => Token::Open(Delimiter::Parenthesis),
            ")" => Token::Close(Delimiter::Parenthesis),
            "[" => Token::Open(Delimiter::Bracket),
            "]" => Token::Close(Delimiter::Bracket),
            "{" => Token::Open(Delimiter::Brace),
            "}" => Token::Close(Delimiter::Brace),
            _ => Token::Atom(word.to_string()),
        })
        .collect()
}

fn rewritten(text: &str, found: bool) -> RewriteResult {
    RewriteResult { tokens: toks(text), found }
}

/// `depth` parentheses around `inner`.
fn wrapped(inner: &str, depth: usize) -> Vec<Token> {
    let mut out = Vec::new();
    for _ in 0..depth {
        out.push(Token::Open(Delimiter::Parenthesis));
    }
    out.extend(toks(inner));
    for _ in 0..depth {
        out.push(Token::Close(Delimiter::Parenthesis));
    }
    out
}

fn shallow(max_depth: usize) -> Grammar {
    Grammar { max_depth, ..Grammar::standard() }
}

#[test]
fn standard_grammar_has_the_usual_sentinels() {
    let g = Grammar::standard();
    assert_eq!(g.separator, "=>");
    assert_eq!(g.placeholder, "_");
    assert_eq!(g.carried, "ret");
    assert_eq!(g.max_depth, 128);
}

#[test]
fn atoms_are_told_by_their_text() {
    let underscore = Token::atom("_");
    assert_eq!(underscore, Token::Atom("_".to_string()));
    assert!(underscore.is_atom(&"_".to_string()));
    assert!(!underscore.is_atom(&"=>".to_string()));
    assert!(!Token::Open(Delimiter::Brace).is_atom(&"{".to_string()));
    assert!(!Token::Close(Delimiter::Brace).is_atom(&"}".to_string()));
    assert_eq!(underscore.clone(), underscore);
    assert_eq!(
        Token::Close(Delimiter::Bracket).clone(),
        Token::Close(Delimiter::Bracket)
    );
}

#[test]
fn split_yields_initial_and_two_stages() {
    let g = Grammar::standard();
    let parts = split(&g, &toks("a + b => c ( d , e ) . f => g")).unwrap();
    assert_eq!(
        parts,
        Split {
            initial: toks("a + b"),
            stages: vec![toks("c ( d , e ) . f"), toks("g")],
        }
    );
}

#[test]
fn split_without_separator_has_no_stages() {
    let g = Grammar::standard();
    let parts = split(&g, &toks("4 * 4")).unwrap();
    assert_eq!(parts, Split { initial: toks("4 * 4"), stages: vec![] });
}

#[test]
fn split_leaves_separators_inside_groups() {
    let g = Grammar::standard();
    let parts = split(&g, &toks("match x { a => b } => f ( c => d ) => [ => ]")).unwrap();
    assert_eq!(
        parts,
        Split {
            initial: toks("match x { a => b }"),
            stages: vec![toks("f ( c => d )"), toks("[ => ]")],
        }
    );
}

#[test]
fn split_refuses_empty_input() {
    let g = Grammar::standard();
    assert_eq!(split(&g, &toks("")), Err(PipeError::MalformedPipeline));
}

#[test]
fn split_refuses_empty_pieces() {
    let g = Grammar::standard();
    assert_eq!(split(&g, &toks("=>")), Err(PipeError::MalformedPipeline));
    assert_eq!(split(&g, &toks("=> f")), Err(PipeError::MalformedPipeline));
    assert_eq!(split(&g, &toks("a =>")), Err(PipeError::MalformedPipeline));
    assert_eq!(split(&g, &toks("a => => f")), Err(PipeError::MalformedPipeline));
    assert_eq!(split(&g, &toks("a => f =>")), Err(PipeError::MalformedPipeline));
}

#[test]
fn split_refuses_unbalanced_brackets() {
    let g = Grammar::standard();
    assert_eq!(split(&g, &toks("f ( a => g")), Err(PipeError::MalformedPipeline));
    assert_eq!(split(&g, &toks("a ) => g")), Err(PipeError::MalformedPipeline));
    assert_eq!(split(&g, &toks("a => g ( ]")), Err(PipeError::MalformedPipeline));
    assert_eq!(split(&g, &toks("{ ( } )")), Err(PipeError::MalformedPipeline));
}

#[test]
fn split_follows_the_grammar() {
    let g = Grammar {
        separator: "|>".to_string(),
        placeholder: "it".to_string(),
        carried: "acc".to_string(),
        max_depth: 8,
    };
    let parts = split(&g, &toks("x => y |> f |> g ( it )")).unwrap();
    assert_eq!(
        parts,
        Split { initial: toks("x => y"), stages: vec![toks("f"), toks("g ( it )")] }
    );
}

#[test]
fn rewrite_leaves_a_stage_without_placeholder() {
    let g = Grammar::standard();
    assert_eq!(rewrite(&g, &toks("f"), false), Ok(rewritten("f", false)));
    assert_eq!(
        rewrite(&g, &toks("a :: b ( 1 , [ 2 ] )"), false),
        Ok(rewritten("a :: b ( 1 , [ 2 ] )", false))
    );
    assert_eq!(rewrite(&g, &toks(""), false), Ok(rewritten("", false)));
}

#[test]
fn rewrite_substitutes_in_place() {
    let g = Grammar::standard();
    assert_eq!(
        rewrite(&g, &toks("_ . method ( )"), false),
        Ok(rewritten("ret . method ( )", true))
    );
}

#[test]
fn rewrite_reaches_into_groups() {
    let g = Grammar::standard();
    assert_eq!(
        rewrite(&g, &toks("f ( _ , 1 )"), false),
        Ok(rewritten("f ( ret , 1 )", true))
    );
    assert_eq!(
        rewrite(&g, &toks("f ( [ a , { b ( _ ) } ] )"), false),
        Ok(rewritten("f ( [ a , { b ( ret ) } ] )", true))
    );
}

#[test]
fn rewrite_gives_every_placeholder_the_same_name() {
    let g = Grammar::standard();
    assert_eq!(
        rewrite(&g, &toks("g ( _ , _ )"), false),
        Ok(rewritten("g ( ret , ret )", true))
    );
    assert_eq!(
        rewrite(&g, &toks("_ + h ( _ ) [ _ ]"), false),
        Ok(rewritten("ret + h ( ret ) [ ret ]", true))
    );
}

#[test]
fn rewrite_stops_at_a_separator_outside_groups() {
    let g = Grammar::standard();
    assert_eq!(rewrite(&g, &toks("a => _"), false), Ok(rewritten("a", false)));
    assert_eq!(rewrite(&g, &toks("_ ( b ) => c ("), false), Ok(rewritten("ret ( b )", true)));
    assert_eq!(rewrite(&g, &toks("=> _"), false), Ok(rewritten("", false)));
}

#[test]
fn rewrite_reads_on_over_a_separator_when_nested() {
    let g = Grammar::standard();
    assert_eq!(rewrite(&g, &toks("a => _"), true), Ok(rewritten("a => ret", true)));
    assert_eq!(
        rewrite(&g, &toks("f ( a => _ )"), false),
        Ok(rewritten("f ( a => ret )", true))
    );
}

#[test]
fn rewrite_refuses_a_group_that_is_never_closed() {
    let g = Grammar::standard();
    assert_eq!(rewrite(&g, &toks("f ("), false), Err(PipeError::UnbalancedGroup));
    assert_eq!(rewrite(&g, &toks("f ( _ [ 1 ]"), true), Err(PipeError::UnbalancedGroup));
    assert_eq!(rewrite(&g, &toks("a => f ("), true), Err(PipeError::UnbalancedGroup));
}

#[test]
fn rewrite_refuses_stray_and_mismatched_brackets() {
    let g = Grammar::standard();
    assert_eq!(rewrite(&g, &toks("a )"), false), Err(PipeError::UnbalancedGroup));
    assert_eq!(rewrite(&g, &toks("f ( _ ]"), false), Err(PipeError::UnbalancedGroup));
    assert_eq!(rewrite(&g, &toks("{ ( } )"), true), Err(PipeError::UnbalancedGroup));
}

#[test]
fn rewrite_bounds_the_depth() {
    let g = Grammar::standard();
    assert_eq!(
        rewrite(&g, &wrapped("_", 128), false),
        Ok(RewriteResult { tokens: wrapped("ret", 128), found: true })
    );
    assert_eq!(rewrite(&g, &wrapped("_", 129), false), Err(PipeError::NestingTooDeep));
    assert_eq!(rewrite(&shallow(0), &toks("a b"), false), Ok(rewritten("a b", false)));
    assert_eq!(rewrite(&shallow(0), &toks("a ( )"), false), Err(PipeError::NestingTooDeep));
    assert_eq!(
        rewrite(&shallow(2), &toks("( ( a ) ( b ) ) ( c )"), false),
        Ok(rewritten("( ( a ) ( b ) ) ( c )", false))
    );
}

#[test]
fn rewrite_reports_the_first_fault() {
    assert_eq!(rewrite(&shallow(1), &toks("( ( ]"), false), Err(PipeError::NestingTooDeep));
    assert_eq!(rewrite(&shallow(1), &toks("( ] ( ( ) )"), false), Err(PipeError::UnbalancedGroup));
    assert_eq!(rewrite(&shallow(1), &toks("a => ( ( ) )"), false), Ok(rewritten("a", false)));
}

#[test]
fn rewrite_follows_the_grammar() {
    let g = Grammar {
        separator: "|>".to_string(),
        placeholder: "it".to_string(),
        carried: "acc".to_string(),
        max_depth: 8,
    };
    assert_eq!(
        rewrite(&g, &toks("f ( it , _ ) => it |> g"), false),
        Ok(rewritten("f ( acc , _ ) => acc", true))
    );
}

#[test]
fn bind_calls_a_stage_without_placeholder() {
    let g = Grammar::standard();
    assert_eq!(bind(&g, &rewritten("f", false)), toks("let ret = f ( ret ) ;"));
}

#[test]
fn bind_takes_a_substituted_stage_as_it_is() {
    let g = Grammar::standard();
    assert_eq!(
        bind(&g, &rewritten("ret . method ( )", true)),
        toks("let ret = ret . method ( ) ;")
    );
    assert_eq!(bind(&g, &rewritten("f ( ret , 1 )", true)), toks("let ret = f ( ret , 1 ) ;"));
    assert_eq!(
        bind(&g, &rewritten("g ( ret , ret )", true)),
        toks("let ret = g ( ret , ret ) ;")
    );
}

#[test]
fn emit_without_stages_yields_the_initial_expression() {
    let g = Grammar::standard();
    assert_eq!(emit(&g, &toks("4 * 4"), &vec![]), toks("{ let ret = 4 * 4 ; ret }"));
}

#[test]
fn emit_binds_each_stage_in_order() {
    let g = Grammar::standard();
    let stages = vec![rewritten("f", false), rewritten("ret + 1", true), rewritten("g", false)];
    assert_eq!(
        emit(&g, &toks("x"), &stages),
        toks("{ let ret = x ; let ret = f ( ret ) ; let ret = ret + 1 ; let ret = g ( ret ) ; ret }")
    );
}

#[test]
fn emit_follows_the_grammar() {
    let g = Grammar {
        separator: "|>".to_string(),
        placeholder: "it".to_string(),
        carried: "acc".to_string(),
        max_depth: 8,
    };
    assert_eq!(
        emit(&g, &toks("x"), &vec![rewritten("f", false)]),
        toks("{ let acc = x ; let acc = f ( acc ) ; acc }")
    );
}
