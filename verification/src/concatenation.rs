//! How the tokens of two inputs relate to the tokens of the two joined.
//!
//! A scan keeps no state but its position. So the tokens from a position on
//! depend on nothing that stands before it, and an input may be cut in two
//! and scanned piece by piece, as long as the cut falls between tokens.

use vstd::prelude::*;
use crate::class::{digit, letter, text_byte, CARRIAGE_RETURN, LINE_FEED, SPACE};
use crate::error::{Cause, ScanError};
use crate::grammar::{
    digits_end, followed_by, lemma_digits_end, lemma_scan_advances, lemma_text_end,
    numeral_starts, scan, text_end, token_at, tokens_from, tokens_of, Outcome,
};
use crate::theorems::theorem_lone_carriage_return_fails;
use crate::token::TokenView;

verus! {

/// Whether `a` is made of letters and digits from `i` on.
pub open spec fn text_from(a: Seq<u8>, i: int) -> bool {
    forall|j: int| i <= j < a.len() ==> text_byte(#[trigger] a[j])
}

/// Whether `a` ends in a text that begins at or after `p`: from some letter
/// there on, it is made of letters and digits.
pub open spec fn ends_in_text_from(a: Seq<u8>, p: int) -> bool {
    exists|i: int| p <= i < a.len() && letter(a[i]) && #[trigger] text_from(a, i)
}

/// Whether `a` ends in a text.
pub open spec fn ends_in_text(a: Seq<u8>) -> bool {
    ends_in_text_from(a, 0)
}

/// Whether a cut between `a` and `b` falls inside a token: between two digits,
/// or between a text and a byte that carries it on.
pub open spec fn cuts_token(a: Seq<u8>, b: Seq<u8>) -> bool {
    &&& a.len() > 0
    &&& b.len() > 0
    &&& (digit(a.last()) && digit(b[0])) || (ends_in_text(a) && text_byte(b[0]))
}

/// Whether a cut between `a` and `b` parts a carriage return from the byte
/// behind it.
pub open spec fn cuts_line_end(a: Seq<u8>, b: Seq<u8>) -> bool {
    a.len() > 0 && b.len() > 0 && a.last() == CARRIAGE_RETURN
}

/// Whether a cut between `a` and `b` falls between tokens.
pub open spec fn splits_cleanly(a: Seq<u8>, b: Seq<u8>) -> bool {
    !cuts_token(a, b) && !cuts_line_end(a, b)
}

/// `outcome` with its end moved right by `n`.
pub open spec fn shifted(outcome: Outcome, n: int) -> Outcome {
    match outcome {
        Outcome::Found { token, end } => Outcome::Found { token, end: end + n },
        Outcome::Exhausted => Outcome::Exhausted,
        Outcome::Failed(error) => Outcome::Failed(error),
    }
}

/// Within `b`, a text ends on `a + b` where it ends on `b`, moved right by the
/// length of `a`.
proof fn lemma_text_end_shift(a: Seq<u8>, b: Seq<u8>, q: int)
    requires
        0 <= q,
    ensures
        text_end(a + b, a.len() + q) == a.len() + text_end(b, q),
    decreases b.len() - q,
{
    if q < b.len() {
        assert((a + b)[a.len() + q] == b[q]);
        if text_byte(b[q]) {
            lemma_text_end_shift(a, b, q + 1);
        }
    }
}

/// Within `b`, a run of digits ends on `a + b` where it ends on `b`, moved
/// right by the length of `a`.
proof fn lemma_digits_end_shift(a: Seq<u8>, b: Seq<u8>, q: int)
    requires
        0 <= q,
    ensures
        digits_end(a + b, a.len() + q) == a.len() + digits_end(b, q),
    decreases b.len() - q,
{
    if q < b.len() {
        assert((a + b)[a.len() + q] == b[q]);
        if digit(b[q]) {
            lemma_digits_end_shift(a, b, q + 1);
        }
    }
}

/// A token of `b` is a token of `a + b`, moved right by the length of `a`.
proof fn lemma_token_at_shift(a: Seq<u8>, b: Seq<u8>, q: int)
    requires
        0 <= q < b.len(),
    ensures
        token_at(a + b, a.len() + q) == shifted(token_at(b, q), a.len() as int),
{
    let n = a.len() as int;
    let s = a + b;
    assert(s[n + q] == b[q]);
    if q + 1 < b.len() {
        assert(s[n + q + 1] == b[q + 1]);
    }
    assert(numeral_starts(s, n + q) == numeral_starts(b, q));
    lemma_text_end(b, q + 1);
    lemma_digits_end(b, q + 1);
    lemma_text_end_shift(a, b, q + 1);
    lemma_digits_end_shift(a, b, q + 1);
    assert(s.subrange(n + q, n + text_end(b, q + 1)) =~= b.subrange(q, text_end(b, q + 1)));
    assert(s.subrange(n + q, n + digits_end(b, q + 1)) =~= b.subrange(q, digits_end(b, q + 1)));
}

/// An attempt within `b` comes to the same on `a + b`, moved right by the
/// length of `a`.
pub(crate) proof fn lemma_scan_shift(a: Seq<u8>, b: Seq<u8>, q: int)
    requires
        0 <= q,
    ensures
        scan(a + b, a.len() + q) == shifted(scan(b, q), a.len() as int),
    decreases b.len() - q,
{
    let n = a.len() as int;
    let s = a + b;
    if q < b.len() {
        assert(s[n + q] == b[q]);
        if b[q] == SPACE {
            lemma_scan_shift(a, b, q + 1);
        } else if b[q] == CARRIAGE_RETURN {
            if q + 1 < b.len() {
                assert(s[n + q + 1] == b[q + 1]);
                if b[q + 1] == LINE_FEED {
                    lemma_scan_shift(a, b, q + 2);
                }
            }
        } else {
            lemma_token_at_shift(a, b, q);
        }
    }
}

/// The tokens of `a + b` from a position within `b` on are the tokens of `b`
/// from that position on.
proof fn lemma_tokens_shift(a: Seq<u8>, b: Seq<u8>, q: int)
    requires
        0 <= q,
    ensures
        tokens_from(a + b, a.len() + q) == tokens_from(b, q),
    decreases b.len() - q,
{
    lemma_scan_shift(a, b, q);
    lemma_scan_advances(b, q);
    if let Outcome::Found { end, .. } = scan(b, q) {
        lemma_tokens_shift(a, b, end);
    }
}

/// The tokens from a position on are the tokens of what stands from that
/// position on: nothing before it has any effect on them.
pub proof fn theorem_position_is_the_only_state(s: Seq<u8>, p: int)
    requires
        0 <= p <= s.len(),
    ensures
        tokens_from(s, p) == tokens_of(s.skip(p)),
{
    assert(s.take(p) + s.skip(p) =~= s);
    lemma_tokens_shift(s.take(p), s.skip(p), 0);
}

/// A text that begins in `a` ends on `a + b` where it ends on `a`, if it ends
/// before the cut or `b` does not carry it on.
proof fn lemma_text_end_prefix(a: Seq<u8>, b: Seq<u8>, p: int)
    requires
        0 <= p <= a.len(),
        b.len() > 0 ==> text_end(a, p) < a.len() || !text_byte(b[0]),
    ensures
        text_end(a + b, p) == text_end(a, p),
    decreases a.len() - p,
{
    if p < a.len() {
        assert((a + b)[p] == a[p]);
        if text_byte(a[p]) {
            lemma_text_end_prefix(a, b, p + 1);
        }
    } else if b.len() > 0 {
        assert((a + b)[p] == b[0]);
    }
}

/// A run of digits that begins in `a` ends on `a + b` where it ends on `a`,
/// if it ends before the cut or `b` does not carry it on.
proof fn lemma_digits_end_prefix(a: Seq<u8>, b: Seq<u8>, p: int)
    requires
        0 <= p <= a.len(),
        b.len() > 0 ==> digits_end(a, p) < a.len() || !digit(b[0]),
    ensures
        digits_end(a + b, p) == digits_end(a, p),
    decreases a.len() - p,
{
    if p < a.len() {
        assert((a + b)[p] == a[p]);
        if digit(a[p]) {
            lemma_digits_end_prefix(a, b, p + 1);
        }
    } else if b.len() > 0 {
        assert((a + b)[p] == b[0]);
    }
}

/// A token of `a` is a token of `a + b` as well, if it ends before the cut or
/// the cut does not fall inside a token.
proof fn lemma_token_at_prefix(a: Seq<u8>, b: Seq<u8>, p: int)
    requires
        0 <= p < a.len(),
        token_at(a, p) matches Outcome::Found { end, .. } && (end < a.len() || !cuts_token(a, b)),
    ensures
        token_at(a + b, p) == token_at(a, p),
{
    let n = a.len() as int;
    let s = a + b;
    assert(s[p] == a[p]);
    if p + 1 < n {
        assert(s[p + 1] == a[p + 1]);
    }
    lemma_text_end(a, p + 1);
    lemma_digits_end(a, p + 1);
    if letter(a[p]) {
        if text_end(a, p + 1) == n {
            assert(text_from(a, p));
            assert(ends_in_text(a));
        }
        lemma_text_end_prefix(a, b, p + 1);
        assert(s.subrange(p, text_end(a, p + 1)) =~= a.subrange(p, text_end(a, p + 1)));
    } else if numeral_starts(a, p) {
        if digits_end(a, p + 1) == n {
            assert(digit(a[n - 1]));
        }
        lemma_digits_end_prefix(a, b, p + 1);
        assert(s.subrange(p, digits_end(a, p + 1)) =~= a.subrange(p, digits_end(a, p + 1)));
    }
}

/// An attempt on `a` that finds a token finds the same on `a + b`, if the
/// token ends before the cut or the cut does not fall inside a token. One that
/// runs out of input goes on, on `a + b`, where `b` begins; but where `a` ends
/// in a carriage return and `b` begins with no line feed, an attempt from
/// within `a` fails.
pub(crate) proof fn lemma_scan_prefix(a: Seq<u8>, b: Seq<u8>, p: int)
    requires
        0 <= p <= a.len(),
        match scan(a, p) {
            Outcome::Found { end, .. } => end < a.len() || !cuts_token(a, b),
            Outcome::Exhausted => true,
            Outcome::Failed(_) => false,
        },
    ensures
        scan(a, p) is Found ==> scan(a + b, p) == scan(a, p),
        scan(a, p) is Exhausted && !cuts_line_end(a, b) ==> scan(a + b, p) == scan(
            a + b,
            a.len() as int,
        ),
        scan(a, p) is Exhausted && p < a.len() && cuts_line_end(a, b) && b[0] != LINE_FEED
            ==> scan(a + b, p) == Outcome::Failed(
            ScanError::InvalidInput(Cause::MalformedLineEnd),
        ),
    decreases a.len() - p,
{
    let n = a.len() as int;
    let s = a + b;
    if p < n {
        assert(s[p] == a[p]);
        if a[p] == SPACE {
            lemma_scan_prefix(a, b, p + 1);
        } else if a[p] == CARRIAGE_RETURN {
            if p + 1 < n {
                assert(s[p + 1] == a[p + 1]);
                lemma_scan_prefix(a, b, p + 2);
            } else if b.len() > 0 {
                assert(s[p + 1] == b[0]);
            }
        } else {
            lemma_token_at_prefix(a, b, p);
        }
    }
}

/// The tokens of `a + b` from a position within `a` on are those of `a` from
/// there on, followed by those of `b`.
proof fn lemma_concatenation_from(a: Seq<u8>, b: Seq<u8>, p: int)
    requires
        0 <= p <= a.len(),
        tokens_from(a, p) is Ok,
        splits_cleanly(a, b),
    ensures
        tokens_from(a + b, p) == followed_by(tokens_from(a, p)->Ok_0, tokens_of(b)),
    decreases a.len() - p,
{
    let n = a.len() as int;
    let s = a + b;
    lemma_scan_prefix(a, b, p);
    lemma_scan_advances(a, p);
    match scan(a, p) {
        Outcome::Found { token, end } => {
            lemma_concatenation_from(a, b, end);
            let rest = tokens_from(a, end)->Ok_0;
            if let Ok(tail) = tokens_of(b) {
                assert(seq![token] + (rest + tail) =~= (seq![token] + rest) + tail);
            }
        },
        Outcome::Exhausted => {
            lemma_tokens_shift(a, b, 0);
            assert(tokens_from(s, p) == tokens_from(s, n));
            if let Ok(tail) = tokens_of(b) {
                assert(Seq::<TokenView>::empty() + tail =~= tail);
            }
        },
        Outcome::Failed(_) => {},
    }
}

/// Where `a` scans without failure and the cut between `a` and `b` falls
/// between tokens, the tokens of `a + b` are the tokens of `a` followed by
/// those of `b`; if `b` fails, `a + b` fails in the same way.
pub proof fn theorem_concatenation(a: Seq<u8>, b: Seq<u8>)
    requires
        tokens_of(a) is Ok,
        splits_cleanly(a, b),
    ensures
        tokens_of(a + b) == followed_by(tokens_of(a)->Ok_0, tokens_of(b)),
{
    lemma_concatenation_from(a, b, 0);
}

/// Where the token found from `p` on begins: the first position at or after
/// `p` that no blank holds.
spec fn token_start(s: Seq<u8>, p: int) -> int
    decreases s.len() - p,
{
    if 0 <= p < s.len() && s[p] == SPACE {
        token_start(s, p + 1)
    } else if 0 <= p && p + 1 < s.len() && s[p] == CARRIAGE_RETURN && s[p + 1] == LINE_FEED {
        token_start(s, p + 2)
    } else {
        p
    }
}

/// Between `p` and the start of the token found from `p` on stand blanks
/// only; an attempt that runs out of input has met nothing but blanks.
proof fn lemma_token_start(s: Seq<u8>, p: int)
    requires
        0 <= p,
    ensures
        p <= token_start(s, p),
        forall|j: int| p <= j < token_start(s, p) ==> !text_byte(#[trigger] s[j]),
        scan(s, p) is Found ==> token_start(s, p) < s.len() && scan(s, p) == token_at(
            s,
            token_start(s, p),
        ),
        scan(s, p) is Exhausted ==> forall|j: int| p <= j < s.len() ==> !text_byte(#[trigger] s[j]),
    decreases s.len() - p,
{
    if p < s.len() {
        if s[p] == SPACE {
            lemma_token_start(s, p + 1);
        } else if s[p] == CARRIAGE_RETURN && p + 1 < s.len() && s[p + 1] == LINE_FEED {
            lemma_token_start(s, p + 2);
        }
    }
}

/// An attempt on `a` that finds a token finds, on `a + b`, the token that
/// begins at the same position.
proof fn lemma_token_start_prefix(a: Seq<u8>, b: Seq<u8>, p: int)
    requires
        0 <= p,
        scan(a, p) is Found,
    ensures
        scan(a + b, p) == token_at(a + b, token_start(a, p)),
    decreases a.len() - p,
{
    let s = a + b;
    assert(s[p] == a[p]);
    if a[p] == SPACE {
        lemma_token_start_prefix(a, b, p + 1);
    } else if a[p] == CARRIAGE_RETURN {
        assert(s[p + 1] == a[p + 1]);
        lemma_token_start_prefix(a, b, p + 2);
    }
}

/// A text that begins at `q` and goes on to `r` ends where the text from `r`
/// on ends.
proof fn lemma_text_end_run(s: Seq<u8>, q: int, r: int)
    requires
        0 <= q <= r <= s.len(),
        forall|j: int| q <= j < r ==> text_byte(#[trigger] s[j]),
    ensures
        text_end(s, q) == text_end(s, r),
    decreases r - q,
{
    if q < r {
        lemma_text_end_run(s, q + 1, r);
    }
}

/// A run of digits that begins at `q` and goes on to `r` ends where the run
/// from `r` on ends.
proof fn lemma_digits_end_run(s: Seq<u8>, q: int, r: int)
    requires
        0 <= q <= r <= s.len(),
        forall|j: int| q <= j < r ==> digit(#[trigger] s[j]),
    ensures
        digits_end(s, q) == digits_end(s, r),
    decreases r - q,
{
    if q < r {
        lemma_digits_end_run(s, q + 1, r);
    }
}

/// An input that begins with a digit begins with one number, which ends where
/// its digits end.
proof fn lemma_first_digits(b: Seq<u8>)
    requires
        b.len() > 0,
        digit(b[0]),
        tokens_of(b) is Ok,
    ensures
        0 < digits_end(b, 0) <= b.len(),
        tokens_from(b, digits_end(b, 0)) is Ok,
        tokens_of(b)->Ok_0.len() == 1 + tokens_from(b, digits_end(b, 0))->Ok_0.len(),
{
    lemma_digits_end(b, 1);
    assert(scan(b, 0) == token_at(b, 0));
}

/// An input that begins with a letter or a digit begins with one token or
/// two, which end where its letters and digits end.
proof fn lemma_first_text_bytes(b: Seq<u8>)
    requires
        b.len() > 0,
        text_byte(b[0]),
        tokens_of(b) is Ok,
    ensures
        0 < text_end(b, 0) <= b.len(),
        tokens_from(b, text_end(b, 0)) is Ok,
        tokens_of(b)->Ok_0.len() >= 1 + tokens_from(b, text_end(b, 0))->Ok_0.len(),
{
    lemma_text_end(b, 1);
    assert(scan(b, 0) == token_at(b, 0));
    if !letter(b[0]) {
        lemma_first_digits(b);
        let d = digits_end(b, 0);
        lemma_digits_end(b, 0);
        lemma_text_end_run(b, 0, d);
        if d < b.len() && text_byte(b[d]) {
            lemma_text_end(b, d + 1);
            assert(scan(b, d) == token_at(b, d));
        }
    }
}

/// Whether a cut between `a` and `b` falls inside a token of `a` that begins
/// at or after `p`.
spec fn cut_inside(a: Seq<u8>, b: Seq<u8>, p: int) -> bool {
    &&& b.len() > 0
    &&& (p < a.len() && digit(a.last()) && digit(b[0])) || (ends_in_text_from(a, p) && text_byte(
        b[0],
    ))
}

/// A cut inside a token costs a token: what is found on `a + b` is shorter
/// than what is found on `a` and on `b`.
proof fn lemma_cut_inside_shortens(a: Seq<u8>, b: Seq<u8>, p: int)
    requires
        0 <= p <= a.len(),
        tokens_from(a, p) is Ok,
        tokens_of(b) is Ok,
        cut_inside(a, b, p),
    ensures
        tokens_from(a + b, p) matches Ok(joined) ==> joined.len() < tokens_from(a, p)->Ok_0.len()
            + tokens_of(b)->Ok_0.len(),
    decreases a.len() - p,
{
    let n = a.len() as int;
    let s = a + b;
    let by_digits = p < n && digit(a.last()) && digit(b[0]);
    let i = choose|i: int| p <= i < a.len() && letter(a[i]) && #[trigger] text_from(a, i);
    if !by_digits {
        assert(text_byte(a[i]));
    }
    lemma_token_start(a, p);
    lemma_scan_advances(a, p);
    match scan(a, p) {
        Outcome::Failed(_) => {},
        Outcome::Exhausted => {
            assert(!text_byte(a[n - 1]));
        },
        Outcome::Found { end, .. } => {
            let t = token_start(a, p);
            lemma_text_end(a, t + 1);
            lemma_digits_end(a, t + 1);
            if end < n {
                lemma_scan_prefix(a, b, p);
                if !by_digits {
                    if i < end {
                        assert(text_byte(a[end]));
                        if i > t {
                            assert(text_byte(a[i]));
                        }
                        assert(false);
                    }
                    assert(ends_in_text_from(a, end));
                }
                lemma_cut_inside_shortens(a, b, end);
            } else {
                lemma_token_start_prefix(a, b, p);
                assert(s[t] == a[t]);
                if t + 1 < n {
                    assert(s[t + 1] == a[t + 1]);
                }
                assert(tokens_from(a, n) == Ok::<Seq<TokenView>, ScanError>(Seq::empty()));
                if letter(a[t]) {
                    assert forall|j: int| t + 1 <= j < n implies text_byte(#[trigger] s[j]) by {
                        assert(s[j] == a[j]);
                    }
                    lemma_text_end_run(s, t + 1, n);
                    lemma_text_end_shift(a, b, 0);
                    lemma_first_text_bytes(b);
                    lemma_tokens_shift(a, b, text_end(b, 0));
                } else if numeral_starts(a, t) {
                    if digit(b[0]) {
                        assert forall|j: int| t + 1 <= j < n implies digit(#[trigger] s[j]) by {
                            assert(s[j] == a[j]);
                        }
                        lemma_digits_end_run(s, t + 1, n);
                        lemma_digits_end_shift(a, b, 0);
                        lemma_first_digits(b);
                        lemma_tokens_shift(a, b, digits_end(b, 0));
                    } else {
                        if i > t {
                            assert(digit(a[i]));
                        }
                        assert(false);
                    }
                } else {
                    assert(false);
                }
            }
        },
    }
}

/// Where the cut between `a` and `b` does not fall between tokens, the tokens
/// of `a + b` are not the tokens of `a` followed by those of `b`: the
/// condition of [`theorem_concatenation`] leaves out no input that it could
/// have taken in.
pub proof fn theorem_cut_must_be_clean(a: Seq<u8>, b: Seq<u8>)
    requires
        tokens_of(a) is Ok,
        tokens_of(b) is Ok,
        !splits_cleanly(a, b),
    ensures
        tokens_of(a + b) != Ok::<Seq<TokenView>, ScanError>(
            tokens_of(a)->Ok_0 + tokens_of(b)->Ok_0,
        ),
{
    let n = a.len() as int;
    let s = a + b;
    if cuts_token(a, b) {
        lemma_cut_inside_shortens(a, b, 0);
    } else {
        assert(s[n - 1] == a[n - 1] && s[n] == b[0]);
        theorem_lone_carriage_return_fails(s, n - 1);
    }
}

} // verus!
