//! Tokens, their mathematical view, and the grammar's sentinels.

use vstd::prelude::*;

verus! {

/// The bracket kind of a group.
#[derive(Debug, Clone, Copy, PartialEq, Eq, Structural)]
pub enum Delimiter {
    Parenthesis,
    Brace,
    Bracket,
    Invisible,
}

/// One lexical unit of a flat token sequence. A group is the run of tokens
/// between an `Open` and the `Close` that matches it.
#[derive(Debug, PartialEq, Eq)]
pub enum Token {
    Atom(String),
    Open(Delimiter),
    Close(Delimiter),
}

/// What a token is, with an atom's text as a sequence of characters.
pub enum Lexeme {
    Atom(Seq<char>),
    Open(Delimiter),
    Close(Delimiter),
}

impl View for Token {
    type V = Lexeme;

    open spec fn view(&self) -> Lexeme {
        match *self {
            Token::Atom(text) => Lexeme::Atom(text@),
            Token::Open(d) => Lexeme::Open(d),
            Token::Close(d) => Lexeme::Close(d),
        }
    }
}

impl DeepView for Token {
    type V = Lexeme;

    open spec fn deep_view(&self) -> Lexeme {
        self@
    }
}

impl Clone for Token {
    fn clone(&self) -> (copy: Token)
        ensures
            copy == *self,
    {
        match self {
            Token::Atom(text) => Token::Atom(text.clone()),
            Token::Open(d) => Token::Open(*d),
            Token::Close(d) => Token::Close(*d),
        }
    }
}

impl Token {
    /// An atom with the given text.
    pub fn atom(text: &str) -> (token: Token)
        ensures
            token@ == Lexeme::Atom(text@),
    {
        Token::Atom(text.to_owned())
    }

    /// Whether this token is the atom spelled `text`.
    pub fn is_atom(&self, text: &String) -> (hit: bool)
        ensures
            hit == (self@ == Lexeme::Atom(text@)),
    {
        match self {
            Token::Atom(own) => *own == *text,
            _ => false,
        }
    }
}

} // verus!
