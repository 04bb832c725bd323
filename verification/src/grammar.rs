//! The lexical grammar, as functions of a byte sequence and a position in it.
//!
//! Between tokens, spaces and carriage-return/line-feed pairs are skipped. A
//! token is the longest run of bytes that its first byte allows: a text runs
//! as far as letters and digits go, a numeral as far as digits go, and a
//! punctuation mark is a single byte.

use vstd::prelude::*;
use crate::class::{digit, letter, text_byte, CARRIAGE_RETURN, LINE_FEED, MINUS, SPACE};
use crate::error::{Cause, ScanError};
use crate::number::{fits_i32, numeral_value};
use crate::token::{punctuation, TokenView};

verus! {

/// What one attempt to produce a token comes to.
pub enum Outcome {
    /// A token, and the position just behind its last byte.
    Found { token: TokenView, end: int },
    /// Nothing but blanks is left.
    Exhausted,
    /// No token can be made of what begins at the first byte that is not
    /// blank.
    Failed(ScanError),
}

/// The first position at or after `p` that holds no letter and no digit; the
/// length of `s` if there is none.
pub open spec fn text_end(s: Seq<u8>, p: int) -> int
    decreases s.len() - p,
{
    if 0 <= p < s.len() && text_byte(s[p]) {
        text_end(s, p + 1)
    } else {
        p
    }
}

/// The first position at or after `p` that holds no digit; the length of `s`
/// if there is none.
pub open spec fn digits_end(s: Seq<u8>, p: int) -> int
    decreases s.len() - p,
{
    if 0 <= p < s.len() && digit(s[p]) {
        digits_end(s, p + 1)
    } else {
        p
    }
}

/// Whether a numeral begins at `p`: a digit, or a minus sign with a digit
/// behind it.
pub open spec fn numeral_starts(s: Seq<u8>, p: int) -> bool {
    digit(s[p]) || (s[p] == MINUS && p + 1 < s.len() && digit(s[p + 1]))
}

/// The token that begins at `p`, where `s[p]` is not blank.
pub open spec fn token_at(s: Seq<u8>, p: int) -> Outcome
    recommends
        0 <= p < s.len(),
{
    if letter(s[p]) {
        let end = text_end(s, p + 1);
        Outcome::Found { token: TokenView::Text(s.subrange(p, end)), end }
    } else if numeral_starts(s, p) {
        let end = digits_end(s, p + 1);
        let value = numeral_value(s.subrange(p, end));
        if fits_i32(value) {
            Outcome::Found { token: TokenView::Number(value), end }
        } else {
            Outcome::Failed(ScanError::NumericOverflow)
        }
    } else if s[p] == MINUS {
        Outcome::Failed(ScanError::InvalidInput(Cause::DanglingMinus))
    } else {
        match punctuation(s[p]) {
            Some(token) => Outcome::Found { token, end: p + 1 },
            None => Outcome::Failed(ScanError::InvalidInput(Cause::UnexpectedByte(s[p]))),
        }
    }
}

/// One attempt to produce a token from position `p` on: blanks are skipped,
/// then the token that begins at the first other byte is taken. A carriage
/// return counts as blank with the line feed behind it, and also as the very
/// last byte of the input; before any other byte it is an error.
pub open spec fn scan(s: Seq<u8>, p: int) -> Outcome
    decreases s.len() - p,
{
    if p < 0 || p >= s.len() {
        Outcome::Exhausted
    } else if s[p] == SPACE {
        scan(s, p + 1)
    } else if s[p] == CARRIAGE_RETURN {
        if p + 1 >= s.len() {
            Outcome::Exhausted
        } else if s[p + 1] == LINE_FEED {
            scan(s, p + 2)
        } else {
            Outcome::Failed(ScanError::InvalidInput(Cause::MalformedLineEnd))
        }
    } else {
        token_at(s, p)
    }
}

/// The tokens `front` followed by those of `rest`; the failure of `rest` if it
/// is one.
pub open spec fn followed_by(
    front: Seq<TokenView>,
    rest: Result<Seq<TokenView>, ScanError>,
) -> Result<Seq<TokenView>, ScanError> {
    match rest {
        Ok(tokens) => Ok(front + tokens),
        Err(error) => Err(error),
    }
}

/// All the tokens from position `p` to the end of the input, in order, or the
/// first failure met on the way.
pub open spec fn tokens_from(s: Seq<u8>, p: int) -> Result<Seq<TokenView>, ScanError>
    decreases s.len() - p,
{
    match scan(s, p) {
        Outcome::Exhausted => Ok(Seq::empty()),
        Outcome::Failed(error) => Err(error),
        Outcome::Found { token, end } => {
            proof {
                lemma_scan_advances(s, p);
            }
            followed_by(seq![token], tokens_from(s, end))
        },
    }
}

/// The tokens of a whole input.
pub open spec fn tokens_of(s: Seq<u8>) -> Result<Seq<TokenView>, ScanError> {
    tokens_from(s, 0)
}

/// `text_end(s, p)` lies between `p` and the end of the input, the bytes from
/// `p` up to it are letters and digits, and the byte at it, if any, is neither.
pub proof fn lemma_text_end(s: Seq<u8>, p: int)
    requires
        0 <= p <= s.len(),
    ensures
        p <= text_end(s, p) <= s.len(),
        forall|i: int| p <= i < text_end(s, p) ==> text_byte(#[trigger] s[i]),
        text_end(s, p) < s.len() ==> !text_byte(s[text_end(s, p)]),
    decreases s.len() - p,
{
    if p < s.len() && text_byte(s[p]) {
        lemma_text_end(s, p + 1);
    }
}

/// `digits_end(s, p)` lies between `p` and the end of the input, the bytes
/// from `p` up to it are digits, and the byte at it, if any, is none.
pub proof fn lemma_digits_end(s: Seq<u8>, p: int)
    requires
        0 <= p <= s.len(),
    ensures
        p <= digits_end(s, p) <= s.len(),
        forall|i: int| p <= i < digits_end(s, p) ==> digit(#[trigger] s[i]),
        digits_end(s, p) < s.len() ==> !digit(s[digits_end(s, p)]),
    decreases s.len() - p,
{
    if p < s.len() && digit(s[p]) {
        lemma_digits_end(s, p + 1);
    }
}

/// A token that begins at `p` ends behind `p` and within the input.
pub proof fn lemma_token_at_advances(s: Seq<u8>, p: int)
    requires
        0 <= p < s.len(),
    ensures
        token_at(s, p) matches Outcome::Found { end, .. } ==> p < end <= s.len(),
{
    lemma_text_end(s, p + 1);
    lemma_digits_end(s, p + 1);
}

/// A token found from `p` on ends behind `p` and within the input.
pub proof fn lemma_scan_advances(s: Seq<u8>, p: int)
    ensures
        scan(s, p) matches Outcome::Found { end, .. } ==> p < end <= s.len(),
    decreases s.len() - p,
{
    if p < 0 || p >= s.len() {
    } else if s[p] == SPACE {
        lemma_scan_advances(s, p + 1);
    } else if s[p] == CARRIAGE_RETURN {
        if p + 1 < s.len() && s[p + 1] == LINE_FEED {
            lemma_scan_advances(s, p + 2);
        }
    } else {
        lemma_token_at_advances(s, p);
    }
}

} // verus!
