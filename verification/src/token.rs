//! The tokens of the language and their mathematical view.

use vstd::prelude::*;
use crate::class::{COMMA, DOLLAR, EQUALS, HASH, LEFT_PAREN, RIGHT_PAREN};

verus! {

/// One lexical unit of the input.
#[derive(Debug, PartialEq, Eq)]
pub enum Token {
    /// An identifier-like run of bytes.
    Text(Vec<u8>),
    /// A signed decimal integer.
    Number(i32),
    /// `(`
    LParen,
    /// `)`
    RParen,
    /// `$`
    Dollar,
    /// `#`
    Hash,
    /// `=`
    Equals,
    /// `,`
    Comma,
    /// Reserved for the end of a logical line. The scanner never produces it:
    /// a carriage return with its line feed is skipped like a space.
    EndOfLine,
}

/// What a [`Token`] stands for: the bytes of a text as a sequence, the value
/// of a number as an integer.
pub enum TokenView {
    Text(Seq<u8>),
    Number(int),
    LParen,
    RParen,
    Dollar,
    Hash,
    Equals,
    Comma,
    EndOfLine,
}

impl View for Token {
    type V = TokenView;

    open spec fn view(&self) -> TokenView {
        match *self {
            Token::Text(bytes) => TokenView::Text(bytes@),
            Token::Number(value) => TokenView::Number(value as int),
            Token::LParen => TokenView::LParen,
            Token::RParen => TokenView::RParen,
            Token::Dollar => TokenView::Dollar,
            Token::Hash => TokenView::Hash,
            Token::Equals => TokenView::Equals,
            Token::Comma => TokenView::Comma,
            Token::EndOfLine => TokenView::EndOfLine,
        }
    }
}

/// The views of a run of tokens, in order.
pub open spec fn token_views(tokens: Seq<Token>) -> Seq<TokenView> {
    tokens.map_values(|t: Token| t@)
}

/// The token that a punctuation byte stands for; `None` for any other byte.
pub open spec fn punctuation(b: u8) -> Option<TokenView> {
    if b == LEFT_PAREN {
        Some(TokenView::LParen)
    } else if b == RIGHT_PAREN {
        Some(TokenView::RParen)
    } else if b == DOLLAR {
        Some(TokenView::Dollar)
    } else if b == HASH {
        Some(TokenView::Hash)
    } else if b == EQUALS {
        Some(TokenView::Equals)
    } else if b == COMMA {
        Some(TokenView::Comma)
    } else {
        None
    }
}

/// The token of a punctuation byte, if `b` is one of `( ) $ # = ,`.
pub fn punctuation_token(b: u8) -> (r: Option<Token>)
    ensures
        match punctuation(b) {
            Some(view) => r matches Some(token) && token@ == view,
            None => r is None,
        },
{
    if b == LEFT_PAREN {
        Some(Token::LParen)
    } else if b == RIGHT_PAREN {
        Some(Token::RParen)
    } else if b == DOLLAR {
        Some(Token::Dollar)
    } else if b == HASH {
        Some(Token::Hash)
    } else if b == EQUALS {
        Some(Token::Equals)
    } else if b == COMMA {
        Some(Token::Comma)
    } else {
        None
    }
}

} // verus!
