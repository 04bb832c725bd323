//! The scanner: a finite-state machine with one byte of lookahead over an
//! input held in memory.

use vstd::prelude::*;
use crate::class::{
    digit, is_digit, is_letter, is_text_byte, letter, text_byte, CARRIAGE_RETURN, LINE_FEED,
    MINUS, SPACE,
};
use crate::error::{Cause, ScanError};
use crate::grammar::{
    digits_end, followed_by, lemma_scan_advances, numeral_starts, scan, text_end, token_at,
    tokens_from, Outcome,
};
use crate::number::parse_numeral;
use crate::source::{gather, input_of, SourceRead};
use crate::token::{punctuation_token, token_views, Token, TokenView};

verus! {

/// The state of the machine while one token is being produced. It lives for
/// one attempt only: every attempt begins in `Idle`.
enum Mode {
    /// Between tokens.
    Idle,
    /// A carriage return has just been consumed; a line feed must follow.
    AfterCR,
    /// A text is being accumulated.
    InText,
    /// A numeral is being accumulated.
    InNumber,
}

/// What a [`TokenIterator`] stands for: the whole input and the position of
/// the next byte to consume.
pub struct Cursor {
    pub bytes: Seq<u8>,
    pub position: int,
}

/// A scanner over a byte sequence. It yields the tokens of its input one by
/// one, on demand, in input order.
pub struct TokenIterator {
    input: Vec<u8>,
    pos: usize,
}

impl View for TokenIterator {
    type V = Cursor;

    closed spec fn view(&self) -> Cursor {
        Cursor { bytes: self.input@, position: self.pos as int }
    }
}

/// Whether the byte under the lookahead, if any, carries a text on.
fn text_follows(peeked: Option<u8>) -> (r: bool)
    ensures
        r == (peeked matches Some(b) && text_byte(b)),
{
    match peeked {
        Some(b) => is_text_byte(b),
        None => false,
    }
}

/// Whether the byte under the lookahead, if any, is a digit.
fn digit_follows(peeked: Option<u8>) -> (r: bool)
    ensures
        r == (peeked matches Some(b) && digit(b)),
{
    match peeked {
        Some(b) => is_digit(b),
        None => false,
    }
}

/// What the machine has established of the attempt that began at `origin`
/// when it stands at `pos` in `mode`, with `buf` accumulated since `begin`.
spec fn pending(mode: Mode, s: Seq<u8>, origin: int, pos: int, begin: int, buf: Seq<u8>) -> bool {
    match mode {
        Mode::Idle => scan(s, origin) == scan(s, pos),
        Mode::AfterCR => {
            &&& origin < pos
            &&& s[pos - 1] == CARRIAGE_RETURN
            &&& scan(s, origin) == scan(s, pos - 1)
        },
        Mode::InText => {
            &&& origin <= begin < pos < s.len()
            &&& scan(s, origin) == token_at(s, begin)
            &&& letter(s[begin])
            &&& text_end(s, begin + 1) == text_end(s, pos)
            &&& text_byte(s[pos])
            &&& buf == s.subrange(begin, pos)
        },
        Mode::InNumber => {
            &&& origin <= begin < pos < s.len()
            &&& scan(s, origin) == token_at(s, begin)
            &&& numeral_starts(s, begin)
            &&& digits_end(s, begin + 1) == digits_end(s, pos)
            &&& digit(s[pos])
            &&& forall|i: int| begin < i < pos ==> digit(#[trigger] s[i])
            &&& buf == s.subrange(begin, pos)
        },
    }
}

impl TokenIterator {
    #[verifier::type_invariant]
    spec fn within_input(self) -> bool {
        self.pos <= self.input.len()
    }

    /// A scanner at the start of `input`.
    pub fn new(input: Vec<u8>) -> (it: TokenIterator)
        ensures
            it@.bytes == input@,
            it@.position == 0,
    {
        TokenIterator { input, pos: 0 }
    }

    /// A scanner at the start of what `reads` amount to. A read that failed
    /// ends the input, as the end of the source does.
    pub fn from_reads(reads: Vec<SourceRead>) -> (it: TokenIterator)
        ensures
            it@.bytes == input_of(reads@),
            it@.position == 0,
    {
        TokenIterator { input: gather(&reads), pos: 0 }
    }

    /// Produces the next token.
    ///
    /// `Ok(Some(token))` is the next token, and the scanner has moved behind
    /// it. `Ok(None)` means that nothing but blanks was left; the scanner is
    /// then at the end of the input. `Err` says why the input is invalid; the
    /// scanner has not moved, so the failure cannot be skipped.
    pub fn next(&mut self) -> (r: Result<Option<Token>, ScanError>)
        ensures
            final(self)@.bytes == old(self)@.bytes,
            old(self)@.position <= final(self)@.position <= final(self)@.bytes.len(),
            match scan(old(self)@.bytes, old(self)@.position) {
                Outcome::Found { token, end } => {
                    &&& r matches Ok(Some(found))
                    &&& found@ == token
                    &&& final(self)@.position == end
                },
                Outcome::Exhausted => {
                    &&& r matches Ok(None)
                    &&& final(self)@.position == old(self)@.bytes.len()
                },
                Outcome::Failed(error) => {
                    &&& r == Err::<Option<Token>, ScanError>(error)
                    &&& final(self)@.position == old(self)@.position
                },
            },
    {
        proof {
            use_type_invariant(&*self);
            lemma_scan_advances(self.input@, self.pos as int);
        }
        let len = self.input.len();
        let ghost s = self.input@;
        let ghost origin = self.pos as int;
        let ghost mut begin: int = 0;
        let mut mode = Mode::Idle;
        let mut buf: Vec<u8> = Vec::new();
        let mut pos: usize = self.pos;
        while pos < len
            invariant
                old(self)@.bytes == s,
                old(self)@.position == origin,
                self.input@ == s,
                self.pos == origin,
                len == s.len(),
                origin <= pos <= len,
                pending(mode, s, origin, pos as int, begin, buf@),
            decreases len - pos,
        {
            let byte = self.input[pos];
            pos += 1;
            let peeked: Option<u8> = if pos < len {
                Some(self.input[pos])
            } else {
                None
            };
            match mode {
                Mode::Idle => {
                    if byte == CARRIAGE_RETURN {
                        buf.clear();
                        mode = Mode::AfterCR;
                    } else if is_letter(byte) {
                        buf.clear();
                        buf.push(byte);
                        proof {
                            begin = pos - 1;
                            assert(buf@ =~= s.subrange(begin, pos as int));
                        }
                        if text_follows(peeked) {
                            mode = Mode::InText;
                        } else {
                            self.pos = pos;
                            return Ok(Some(Token::Text(buf)));
                        }
                    } else if is_digit(byte) {
                        buf.clear();
                        buf.push(byte);
                        proof {
                            begin = pos - 1;
                            assert(buf@ =~= s.subrange(begin, pos as int));
                        }
                        if digit_follows(peeked) {
                            mode = Mode::InNumber;
                        } else {
                            match parse_numeral(&buf) {
                                Some(value) => {
                                    self.pos = pos;
                                    return Ok(Some(Token::Number(value)));
                                },
                                None => {
                                    return Err(ScanError::NumericOverflow);
                                },
                            }
                        }
                    } else if byte == MINUS {
                        buf.clear();
                        buf.push(byte);
                        proof {
                            begin = pos - 1;
                            assert(buf@ =~= s.subrange(begin, pos as int));
                        }
                        if digit_follows(peeked) {
                            mode = Mode::InNumber;
                        } else {
                            return Err(ScanError::InvalidInput(Cause::DanglingMinus));
                        }
                    } else if byte == SPACE {
                    } else {
                        match punctuation_token(byte) {
                            Some(token) => {
                                self.pos = pos;
                                return Ok(Some(token));
                            },
                            None => {
                                return Err(ScanError::InvalidInput(Cause::UnexpectedByte(byte)));
                            },
                        }
                    }
                },
                Mode::AfterCR => {
                    if byte == LINE_FEED {
                        mode = Mode::Idle;
                    } else {
                        return Err(ScanError::InvalidInput(Cause::MalformedLineEnd));
                    }
                },
                Mode::InText => {
                    buf.push(byte);
                    proof {
                        assert(buf@ =~= s.subrange(begin, pos as int));
                    }
                    if text_follows(peeked) {
                    } else {
                        self.pos = pos;
                        return Ok(Some(Token::Text(buf)));
                    }
                },
                Mode::InNumber => {
                    buf.push(byte);
                    proof {
                        assert(buf@ =~= s.subrange(begin, pos as int));
                    }
                    if digit_follows(peeked) {
                    } else {
                        match parse_numeral(&buf) {
                            Some(value) => {
                                self.pos = pos;
                                return Ok(Some(Token::Number(value)));
                            },
                            None => {
                                return Err(ScanError::NumericOverflow);
                            },
                        }
                    }
                },
            }
        }
        self.pos = pos;
        Ok(None)
    }

    /// Produces all the tokens that are left, in order, or the first failure
    /// met on the way.
    pub fn collect(self) -> (r: Result<Vec<Token>, ScanError>)
        ensures
            match tokens_from(self@.bytes, self@.position) {
                Ok(views) => r matches Ok(tokens) && token_views(tokens@) == views,
                Err(error) => r == Err::<Vec<Token>, ScanError>(error),
            },
    {
        let ghost s = self@.bytes;
        let ghost whole = tokens_from(self@.bytes, self@.position);
        let mut it = self;
        let mut tokens: Vec<Token> = Vec::new();
        assert(Seq::<TokenView>::empty() + tokens_from(s, it@.position)->Ok_0 =~= tokens_from(
            s,
            it@.position,
        )->Ok_0);
        loop
            invariant
                it@.bytes == s,
                whole == tokens_from(self@.bytes, self@.position),
                whole == followed_by(token_views(tokens@), tokens_from(s, it@.position)),
            decreases s.len() - it@.position,
        {
            let ghost before = it@.position;
            let ghost front = token_views(tokens@);
            proof {
                lemma_scan_advances(s, before);
            }
            match it.next() {
                Ok(Some(token)) => {
                    tokens.push(token);
                    proof {
                        let rest = tokens_from(s, it@.position);
                        assert(token_views(tokens@) =~= front + seq![token@]);
                        if rest is Ok {
                            assert((front + seq![token@]) + rest->Ok_0 =~= front + (seq![token@]
                                + rest->Ok_0));
                        }
                    }
                },
                Ok(None) => {
                    assert(front + Seq::<TokenView>::empty() =~= front);
                    return Ok(tokens);
                },
                Err(error) => {
                    return Err(error);
                },
            }
        }
    }
}

} // verus!
