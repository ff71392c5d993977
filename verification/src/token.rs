//! The token type, its mathematical shape, and the scan's error.

use vstd::prelude::*;

verus! {

/// A lexical token: an unsigned integer literal, an operator or keyword
/// holding its exact matched text, an identifier holding its matched word,
/// or the end-of-input marker that closes every successful scan.
#[derive(Debug, PartialEq, Eq, Clone)]
pub enum Token {
    IntegerLiteral(u32),
    Operator(String),
    Identifier(String),
    EOF,
}

/// The mathematical shape of a token: text is a sequence of characters.
pub enum SpecToken {
    IntegerLiteral(u32),
    Operator(Seq<char>),
    Identifier(Seq<char>),
    EOF,
}

impl View for Token {
    type V = SpecToken;

    open spec fn view(&self) -> SpecToken {
        match self {
            Token::IntegerLiteral(n) => SpecToken::IntegerLiteral(*n),
            Token::Operator(s) => SpecToken::Operator(s@),
            Token::Identifier(s) => SpecToken::Identifier(s@),
            Token::EOF => SpecToken::EOF,
        }
    }
}

/// The shapes of a sequence of tokens, element by element.
pub open spec fn toks(ts: Seq<Token>) -> Seq<SpecToken> {
    ts.map_values(|t: Token| t@)
}

/// Taking shapes commutes with appending one token.
pub proof fn lemma_toks_push(ts: Seq<Token>, t: Token)
    ensures
        toks(ts.push(t)) == toks(ts).push(t@),
{
    assert(toks(ts.push(t)) =~= toks(ts).push(t@));
}

impl Token {
    /// Builds an operator or keyword token holding the given text.
    pub fn operator(s: &str) -> (t: Token)
        ensures
            t@ == SpecToken::Operator(s@),
    {
        Token::Operator(s.to_owned())
    }

    /// Builds an identifier token holding the given text.
    pub fn identifier(s: &str) -> (t: Token)
        ensures
            t@ == SpecToken::Identifier(s@),
    {
        Token::Identifier(s.to_owned())
    }
}

/// The failure of a whole scan: at `position`, no recognizer matched;
/// `remainder` is the unconsumed input from that position on.
#[derive(Debug, PartialEq, Eq, Clone)]
pub enum TokenizeError {
    UnrecognizedSymbol { position: usize, remainder: String },
}

} // verus!
