use std::str::FromStr;

use pipeline::{expand, pipe, Delimiter, Grammar, PipeError, Token};
use proc_macro2::{Spacing, TokenStream, TokenTree};

/// Reads a pipeline written with a blank between each two tokens.
fn lex(text: &str) -> Vec<Token> {
    text.split_whitespace()
        .map(|word| match word {
            "(" => Token::Open(Delimiter::Parenthesis),
            ")" => Token::Close(Delimiter::Parenthesis),
            "[" => Token::Open(Delimiter::Bracket),
            "]" => Token::Close(Delimiter::Bracket),
            "{" => Token::Open(Delimiter::Brace),
            "}" => Token::Close(Delimiter::Brace),
            _ => Token::Atom(word.to_string()),
        })
        .collect()
}

/// Reads a pipeline as the host's lexer does: operators joined, groups
/// matched, and then laid out flat.
fn source(text: &str) -> Vec<Token> {
    let mut out = Vec::new();
    lay_out(TokenStream::from_str(text).unwrap(), &mut out);
    out
}

fn lay_out(stream: TokenStream, out: &mut Vec<Token>) {
    let mut run = String::new();
    for tree in stream {
        match tree {
            TokenTree::Punct(p) => {
                run.push(p.as_char());
                if p.spacing() == Spacing::Joint {
                    continue;
                }
            }
            TokenTree::Ident(name) => run.push_str(&name.to_string()),
            TokenTree::Literal(value) => run.push_str(&value.to_string()),
            TokenTree::Group(group) => {
                let kind = match group.delimiter() {
                    proc_macro2::Delimiter::Parenthesis => Delimiter::Parenthesis,
                    proc_macro2::Delimiter::Brace => Delimiter::Brace,
                    proc_macro2::Delimiter::Bracket => Delimiter::Bracket,
                    proc_macro2::Delimiter::None => Delimiter::Invisible,
                };
                out.push(Token::Open(kind));
                lay_out(group.stream(), out);
                out.push(Token::Close(kind));
                continue;
            }
        }
        out.push(Token::Atom(std::mem::take(&mut run)));
    }
}

#[test]
fn trivial() {
    let out = pipe(&source("4 * 4")).unwrap();
    assert_eq!(out, lex("{ let ret = 4 * 4 ; ret }"));
    let ret = {
        let ret = 4 * 4;
        ret
    };
    assert_eq!(ret, 16);
}

#[test]
fn simple() {
    let out = pipe(&source("6u8 => double")).unwrap();
    assert_eq!(out, lex("{ let ret = 6u8 ; let ret = double ( ret ) ; ret }"));
    let double = |x: u8| x * 2;
    let ret = {
        let ret = 6u8;
        let ret = double(ret);
        ret
    };
    assert_eq!(ret, 12);
}

#[test]
fn partial() {
    let out = pipe(&source("Some(4) => _.is_some()")).unwrap();
    assert_eq!(
        out,
        lex("{ let ret = Some ( 4 ) ; let ret = ret . is_some ( ) ; ret }")
    );
    let ret = {
        let ret = Some(4);
        let ret = ret.is_some();
        ret
    };
    assert_eq!(ret, true);
}

#[test]
fn lambda() {
    let out = pipe(&source("Some(4)\n => _.map(|_| 0)\n => _.unwrap()")).unwrap();
    assert_eq!(
        out,
        lex("{ let ret = Some ( 4 ) ; let ret = ret . map ( | ret | 0 ) ; let ret = ret . unwrap ( ) ; ret }")
    );
    let ret = {
        let ret = Some(4);
        let ret = ret.map(|ret| 0);
        let ret = ret.unwrap();
        ret
    };
    assert_eq!(ret, 0);
}

#[test]
fn separator_with_nothing_after_it() {
    assert_eq!(pipe(&lex("=>")), Err(PipeError::MalformedPipeline));
    assert_eq!(pipe(&lex("a =>")), Err(PipeError::MalformedPipeline));
}

#[test]
fn group_that_is_never_closed() {
    assert_eq!(pipe(&lex("f (")), Err(PipeError::UnbalancedGroup));
    assert_eq!(pipe(&lex("a => f ( _")), Err(PipeError::UnbalancedGroup));
}

#[test]
fn unbalanced_is_told_before_malformed() {
    assert_eq!(pipe(&lex("=> (")), Err(PipeError::UnbalancedGroup));
    assert_eq!(pipe(&lex("a => ) =>")), Err(PipeError::UnbalancedGroup));
    assert_eq!(pipe(&lex("a => f ( _ ]")), Err(PipeError::UnbalancedGroup));
}

#[test]
fn empty_input_is_malformed() {
    assert_eq!(pipe(&lex("")), Err(PipeError::MalformedPipeline));
    assert_eq!(pipe(&lex("=> f")), Err(PipeError::MalformedPipeline));
    assert_eq!(pipe(&lex("a => => f")), Err(PipeError::MalformedPipeline));
}

#[test]
fn stage_nested_too_deeply() {
    let mut input = lex("x =>");
    for _ in 0..129 {
        input.push(Token::Open(Delimiter::Parenthesis));
    }
    input.push(Token::Atom("_".to_string()));
    for _ in 0..129 {
        input.push(Token::Close(Delimiter::Parenthesis));
    }
    assert_eq!(pipe(&input), Err(PipeError::NestingTooDeep));
    let shallow = Grammar { max_depth: 1, ..Grammar::standard() };
    assert_eq!(
        expand(&shallow, &lex("x => f ( g ( _ ) )")),
        Err(PipeError::NestingTooDeep)
    );
    assert_eq!(
        expand(&shallow, &lex("x => f ( _ ) => g ( _ )")),
        Ok(lex("{ let ret = x ; let ret = f ( ret ) ; let ret = g ( ret ) ; ret }"))
    );
}

#[test]
fn initial_expression_is_taken_as_it_stands() {
    let shallow = Grammar { max_depth: 1, ..Grammar::standard() };
    assert_eq!(
        expand(&shallow, &lex("f ( g ( _ ) ) => h")),
        Ok(lex("{ let ret = f ( g ( _ ) ) ; let ret = h ( ret ) ; ret }"))
    );
}

#[test]
fn stage_without_placeholder_is_called() {
    assert_eq!(
        pipe(&lex("x => f")),
        Ok(lex("{ let ret = x ; let ret = f ( ret ) ; ret }"))
    );
    assert_eq!(
        pipe(&lex("x => a :: b ( 1 )")),
        Ok(lex("{ let ret = x ; let ret = a :: b ( 1 ) ( ret ) ; ret }"))
    );
}

#[test]
fn stage_with_placeholder_is_substituted() {
    assert_eq!(
        pipe(&lex("x => _ . method ( )")),
        Ok(lex("{ let ret = x ; let ret = ret . method ( ) ; ret }"))
    );
}

#[test]
fn placeholder_inside_a_group_is_substituted() {
    assert_eq!(
        pipe(&lex("x => f ( _ , 1 )")),
        Ok(lex("{ let ret = x ; let ret = f ( ret , 1 ) ; ret }"))
    );
}

#[test]
fn placeholders_share_one_binding() {
    assert_eq!(
        pipe(&lex("x => g ( _ , _ )")),
        Ok(lex("{ let ret = x ; let ret = g ( ret , ret ) ; ret }"))
    );
}

#[test]
fn three_pieces_expand_in_order() {
    assert_eq!(
        pipe(&lex("a + b => c ( _ ) . d => e")),
        Ok(lex("{ let ret = a + b ; let ret = c ( ret ) . d ; let ret = e ( ret ) ; ret }"))
    );
}

#[test]
fn separator_inside_a_group_is_no_stage() {
    assert_eq!(
        pipe(&lex("x => match _ { 0 => a , _ => b }")),
        Ok(lex("{ let ret = x ; let ret = match ret { 0 => a , ret => b } ; ret }"))
    );
}

#[test]
fn expansion_is_one_closed_block() {
    let out = pipe(&lex("x => f ( [ _ ] ) => { g } => _ . h ( )")).unwrap();
    let mut open: Vec<Delimiter> = Vec::new();
    for (at, token) in out.iter().enumerate() {
        match token {
            Token::Open(d) => open.push(*d),
            Token::Close(d) => assert_eq!(open.pop(), Some(*d)),
            Token::Atom(_) => {}
        }
        assert_eq!(open.is_empty(), at + 1 == out.len());
    }
}

#[test]
fn expand_follows_the_grammar() {
    let g = Grammar {
        separator: "|>".to_string(),
        placeholder: "it".to_string(),
        carried: "acc".to_string(),
        max_depth: 8,
    };
    assert_eq!(
        expand(&g, &lex("x => y |> f |> it . g ( _ )")),
        Ok(lex("{ let acc = x => y ; let acc = f ( acc ) ; let acc = acc . g ( _ ) ; acc }"))
    );
}
