//! A byte-oriented lexical scanner for a small macro language: parenthesised
//! expressions, identifiers, signed 32-bit integers and the punctuation
//! `$ # = ,`.
//!
//! The grammar is stated once, as spec functions over a sequence of bytes
//! ([`grammar`]), and the scanner ([`TokenIterator`]) is proved to produce
//! exactly the tokens that the grammar assigns to its input. What follows
//! from the grammar for inputs of particular shapes is proved in
//! [`theorems`] and [`concatenation`]. The input is held in memory; what a
//! byte source that may fail amounts to is said in [`source`].

pub mod class;
pub mod concatenation;
pub mod error;
pub mod grammar;
pub mod number;
pub mod source;
pub mod theorems;
pub mod token;
pub mod tokenizer;

pub use error::{Cause, ScanError};
pub use source::SourceRead;
pub use token::Token;
pub use tokenizer::TokenIterator;
