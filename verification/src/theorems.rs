//! What the grammar assigns to whole inputs of particular shapes.

use vstd::prelude::*;
use crate::class::{digit, letter, text_byte, CARRIAGE_RETURN, LINE_FEED, MINUS, SPACE};
use crate::error::{Cause, ScanError};
use crate::concatenation::{lemma_scan_prefix, lemma_scan_shift};
use crate::grammar::{
    digits_end, lemma_digits_end, lemma_scan_advances, lemma_text_end, scan, text_end, token_at,
    tokens_from, tokens_of, Outcome,
};
use crate::number::{digits_of, fits_i32, is_numeral, negative, numeral_value};
use crate::token::{punctuation, TokenView};

verus! {

/// Whether `s` holds, from `p` on, nothing but spaces and carriage returns
/// that each have their line feed behind them.
pub open spec fn blank_from(s: Seq<u8>, p: int) -> bool
    decreases s.len() - p,
{
    if p < 0 || p >= s.len() {
        true
    } else if s[p] == SPACE {
        blank_from(s, p + 1)
    } else if s[p] == CARRIAGE_RETURN {
        p + 1 < s.len() && s[p + 1] == LINE_FEED && blank_from(s, p + 2)
    } else {
        false
    }
}

/// Whether `s` is made of spaces and carriage-return/line-feed pairs alone.
pub open spec fn is_blank(s: Seq<u8>) -> bool {
    blank_from(s, 0)
}

/// Whether `s` is an identifier: a letter, then letters and digits.
pub open spec fn is_identifier(s: Seq<u8>) -> bool {
    &&& s.len() > 0
    &&& letter(s[0])
    &&& forall|i: int| 0 < i < s.len() ==> text_byte(#[trigger] s[i])
}

/// An attempt that meets nothing but blanks runs out of input.
proof fn lemma_blank_is_exhausted(s: Seq<u8>, p: int)
    requires
        blank_from(s, p),
    ensures
        scan(s, p) == Outcome::Exhausted,
    decreases s.len() - p,
{
    if p < 0 || p >= s.len() {
    } else if s[p] == SPACE {
        lemma_blank_is_exhausted(s, p + 1);
    } else {
        lemma_blank_is_exhausted(s, p + 2);
    }
}

/// An input made of spaces and carriage-return/line-feed pairs alone holds no
/// token.
pub proof fn theorem_blank_input_has_no_tokens(s: Seq<u8>)
    requires
        is_blank(s),
    ensures
        tokens_of(s) == Ok::<Seq<TokenView>, ScanError>(Seq::empty()),
{
    lemma_blank_is_exhausted(s, 0);
}

/// A text that begins at `p` and is made of letters and digits up to the end
/// of the input runs to that end.
proof fn lemma_text_runs_to_end(s: Seq<u8>, p: int)
    requires
        0 <= p <= s.len(),
        forall|i: int| p <= i < s.len() ==> text_byte(#[trigger] s[i]),
    ensures
        text_end(s, p) == s.len(),
{
    lemma_text_end(s, p);
}

/// A numeral whose digits go on to the end of the input runs to that end.
proof fn lemma_digits_run_to_end(s: Seq<u8>, p: int)
    requires
        0 <= p <= s.len(),
        forall|i: int| p <= i < s.len() ==> digit(#[trigger] s[i]),
    ensures
        digits_end(s, p) == s.len(),
{
    lemma_digits_end(s, p);
}

/// A token that reaches from the start of the input to its end is the only
/// token of the input.
proof fn lemma_single_token(s: Seq<u8>, token: TokenView)
    requires
        scan(s, 0) == (Outcome::Found { token, end: s.len() as int }),
    ensures
        tokens_of(s) == Ok::<Seq<TokenView>, ScanError>(seq![token]),
{
    assert(tokens_from(s, s.len() as int) == Ok::<Seq<TokenView>, ScanError>(Seq::empty()));
    assert(seq![token] + Seq::<TokenView>::empty() =~= seq![token]);
}

/// An identifier is one text token, made of all its bytes. This holds of
/// every ASCII identifier `[A-Za-z_][A-Za-z0-9_]*`, and of those with
/// accented letters as well.
pub proof fn theorem_identifier_is_one_text(s: Seq<u8>)
    requires
        is_identifier(s),
    ensures
        tokens_of(s) == Ok::<Seq<TokenView>, ScanError>(seq![TokenView::Text(s)]),
{
    lemma_text_runs_to_end(s, 1);
    assert(s.subrange(0, s.len() as int) =~= s);
    lemma_single_token(s, TokenView::Text(s));
}

/// A numeral whose value fits in 32 bits is one number token of that value;
/// one whose value does not fit is a numeric overflow.
pub proof fn theorem_numeral_is_one_number(s: Seq<u8>)
    requires
        is_numeral(s),
    ensures
        fits_i32(numeral_value(s)) ==> tokens_of(s) == Ok::<Seq<TokenView>, ScanError>(
            seq![TokenView::Number(numeral_value(s))],
        ),
        !fits_i32(numeral_value(s)) ==> tokens_of(s) == Err::<Seq<TokenView>, ScanError>(
            ScanError::NumericOverflow,
        ),
{
    let digits = digits_of(s);
    if negative(s) {
        assert(digit(digits[0]));
        assert forall|i: int| 1 <= i < s.len() implies digit(#[trigger] s[i]) by {
            assert(digit(digits[i - 1]));
        }
    }
    assert(digit(s[0]) || s[0] == MINUS);
    lemma_digits_run_to_end(s, 1);
    assert(s.subrange(0, s.len() as int) =~= s);
    assert(scan(s, 0) == token_at(s, 0));
    if fits_i32(numeral_value(s)) {
        lemma_single_token(s, TokenView::Number(numeral_value(s)));
    }
}

/// A punctuation byte alone is its one token and nothing else.
pub proof fn theorem_punctuation_alone(b: u8)
    requires
        punctuation(b) is Some,
    ensures
        tokens_of(seq![b]) == Ok::<Seq<TokenView>, ScanError>(seq![punctuation(b)->Some_0]),
{
    let s = seq![b];
    let token = punctuation(b)->Some_0;
    assert(s[0] == b);
    lemma_single_token(s, token);
}

/// Whether a carriage return stands at `i` with a byte other than a line
/// feed behind it.
pub open spec fn lone_carriage_return_at(s: Seq<u8>, i: int) -> bool {
    0 <= i && i + 1 < s.len() && s[i] == CARRIAGE_RETURN && s[i + 1] != LINE_FEED
}

/// Whether a minus sign stands at `i` with no digit behind it.
pub open spec fn dangling_minus_at(s: Seq<u8>, i: int) -> bool {
    0 <= i < s.len() && s[i] == MINUS && (i + 1 == s.len() || !digit(s[i + 1]))
}

/// Whether the byte at `i` belongs to nothing in the grammar: it is no blank,
/// no letter, no digit, no minus sign and no punctuation mark. A line feed
/// counts as blank just behind a carriage return, and nowhere else.
pub open spec fn unexpected_byte_at(s: Seq<u8>, i: int) -> bool {
    &&& 0 <= i < s.len()
    &&& s[i] != SPACE
    &&& s[i] != CARRIAGE_RETURN
    &&& s[i] != MINUS
    &&& !text_byte(s[i])
    &&& punctuation(s[i]) is None
    &&& !(s[i] == LINE_FEED && i > 0 && s[i - 1] == CARRIAGE_RETURN)
}

/// Whether the input is invalid at `i`.
pub open spec fn invalid_at(s: Seq<u8>, i: int) -> bool {
    lone_carriage_return_at(s, i) || dangling_minus_at(s, i) || unexpected_byte_at(s, i)
}

/// An input that begins with a minus sign which no digit follows is invalid,
/// whether the input ends there or goes on with another byte.
pub proof fn theorem_dangling_minus_is_invalid(s: Seq<u8>)
    requires
        dangling_minus_at(s, 0),
    ensures
        tokens_of(s) == Err::<Seq<TokenView>, ScanError>(
            ScanError::InvalidInput(Cause::DanglingMinus),
        ),
{
}

/// Up to a position where the input is invalid, no attempt runs out of
/// input, and no token reaches that position.
proof fn lemma_scan_stops_at_invalid(s: Seq<u8>, i: int, p: int)
    requires
        0 <= p <= i,
        invalid_at(s, i),
    ensures
        match scan(s, p) {
            Outcome::Found { end, .. } => p < end <= i,
            Outcome::Exhausted => false,
            Outcome::Failed(_) => true,
        },
    decreases i - p,
{
    if p == i {
    } else if s[p] == SPACE {
        lemma_scan_stops_at_invalid(s, i, p + 1);
    } else if s[p] == CARRIAGE_RETURN {
        if s[p + 1] == LINE_FEED {
            lemma_scan_stops_at_invalid(s, i, p + 2);
        }
    } else {
        lemma_text_end(s, p + 1);
        lemma_digits_end(s, p + 1);
        if text_end(s, p + 1) > i {
            assert(text_byte(s[i]));
        }
        if digits_end(s, p + 1) > i {
            assert(digit(s[i]));
        }
    }
}

/// From no position before invalid input can the rest be scanned to its end.
proof fn lemma_invalid_fails_from(s: Seq<u8>, i: int, p: int)
    requires
        0 <= p <= i,
        invalid_at(s, i),
    ensures
        tokens_from(s, p) is Err,
    decreases i - p,
{
    lemma_scan_stops_at_invalid(s, i, p);
    if let Outcome::Found { end, .. } = scan(s, p) {
        lemma_invalid_fails_from(s, i, end);
    }
}

/// No scan gets past invalid input: an input that is invalid at some
/// position cannot be scanned to its end. It fails as invalid input, unless a
/// numeral out of range stands before that position and fails first.
pub proof fn theorem_invalid_input_fails(s: Seq<u8>, i: int)
    requires
        invalid_at(s, i),
    ensures
        tokens_of(s) is Err,
        tokens_of(s) != Err::<Seq<TokenView>, ScanError>(ScanError::NumericOverflow)
            ==> tokens_of(s)->Err_0 is InvalidInput,
{
    lemma_invalid_fails_from(s, i, 0);
}

/// Where what stands before a lone carriage return at `i` scans without
/// failure, the scan fails at that carriage return or at one just before it.
proof fn lemma_malformed_line_end_from(s: Seq<u8>, i: int, p: int)
    requires
        0 <= p <= i,
        lone_carriage_return_at(s, i),
        tokens_from(s.take(i), p) is Ok,
    ensures
        tokens_from(s, p) == Err::<Seq<TokenView>, ScanError>(
            ScanError::InvalidInput(Cause::MalformedLineEnd),
        ),
    decreases i - p,
{
    let a = s.take(i);
    let b = s.skip(i);
    assert(a + b =~= s);
    assert(b[0] == s[i] && b[1] == s[i + 1]);
    lemma_scan_prefix(a, b, p);
    lemma_scan_advances(a, p);
    match scan(a, p) {
        Outcome::Found { end, .. } => {
            lemma_malformed_line_end_from(s, i, end);
        },
        Outcome::Exhausted => {
            lemma_scan_shift(a, b, 0);
        },
        Outcome::Failed(_) => {},
    }
}

/// An input with a carriage return that some byte other than a line feed
/// follows cannot be scanned to its end. It fails as invalid input, unless a
/// numeral out of range stands before that carriage return and fails first.
/// Where all that stands before the carriage return scans without failure,
/// the failure is the malformed line end.
pub proof fn theorem_lone_carriage_return_fails(s: Seq<u8>, i: int)
    requires
        lone_carriage_return_at(s, i),
    ensures
        tokens_of(s) is Err,
        tokens_of(s) != Err::<Seq<TokenView>, ScanError>(ScanError::NumericOverflow)
            ==> tokens_of(s)->Err_0 is InvalidInput,
        tokens_of(s.take(i)) is Ok ==> tokens_of(s) == Err::<Seq<TokenView>, ScanError>(
            ScanError::InvalidInput(Cause::MalformedLineEnd),
        ),
{
    theorem_invalid_input_fails(s, i);
    if tokens_of(s.take(i)) is Ok {
        lemma_malformed_line_end_from(s, i, 0);
    }
}

/// Whether `token` is one that the grammar can yield: a text that is an
/// identifier, a number of 32 bits, or a punctuation mark. The end-of-line
/// token is none of these.
pub open spec fn well_formed(token: TokenView) -> bool {
    match token {
        TokenView::Text(bytes) => is_identifier(bytes),
        TokenView::Number(value) => fits_i32(value),
        TokenView::EndOfLine => false,
        _ => true,
    }
}

/// A token that is found is well formed. In particular it is never the
/// end-of-line token.
pub proof fn theorem_found_token_is_well_formed(s: Seq<u8>, p: int)
    ensures
        scan(s, p) matches Outcome::Found { token, .. } ==> well_formed(token),
    decreases s.len() - p,
{
    if p < 0 || p >= s.len() {
    } else if s[p] == SPACE {
        theorem_found_token_is_well_formed(s, p + 1);
    } else if s[p] == CARRIAGE_RETURN {
        if p + 1 < s.len() && s[p + 1] == LINE_FEED {
            theorem_found_token_is_well_formed(s, p + 2);
        }
    } else {
        lemma_text_end(s, p + 1);
    }
}

/// Every token of an input that scans without failure is well formed.
pub proof fn theorem_tokens_are_well_formed(s: Seq<u8>, p: int)
    ensures
        tokens_from(s, p) matches Ok(tokens) ==> forall|i: int|
            0 <= i < tokens.len() ==> well_formed(#[trigger] tokens[i]),
    decreases s.len() - p,
{
    theorem_found_token_is_well_formed(s, p);
    lemma_scan_advances(s, p);
    if let Outcome::Found { end, .. } = scan(s, p) {
        theorem_tokens_are_well_formed(s, end);
    }
}

} // verus!
