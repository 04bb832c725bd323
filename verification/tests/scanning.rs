use tokenizer::{Cause, ScanError, Token, TokenIterator};

fn scan_all(input: &[u8]) -> Result<Vec<Token>, ScanError> {
    TokenIterator::new(input.to_vec()).collect()
}

fn text(bytes: &[u8]) -> Token {
    Token::Text(bytes.to_vec())
}

#[test]
fn end_to_end_expression() {
    assert_eq!(
        scan_all(b"(foo $ 42 , -3)"),
        Ok(vec![
            Token::LParen,
            text(b"foo"),
            Token::Dollar,
            Token::Number(42),
            Token::Comma,
            Token::Number(-3),
            Token::RParen,
        ])
    );
}

#[test]
fn empty_input_has_no_tokens() {
    assert_eq!(scan_all(b""), Ok(vec![]));
    let mut it = TokenIterator::new(Vec::new());
    assert_eq!(it.next(), Ok(None));
}

#[test]
fn blank_input_has_no_tokens() {
    assert_eq!(scan_all(b" "), Ok(vec![]));
    assert_eq!(scan_all(b"     "), Ok(vec![]));
    assert_eq!(scan_all(b"\r\n"), Ok(vec![]));
    assert_eq!(scan_all(b"\r\n\r\n"), Ok(vec![]));
    assert_eq!(scan_all(b"  \r\n \r\n  "), Ok(vec![]));
}

#[test]
fn line_end_is_skipped_between_tokens() {
    assert_eq!(scan_all(b"a\r\nb"), Ok(vec![text(b"a"), text(b"b")]));
    assert_eq!(scan_all(b"\r\nfoo"), Ok(vec![text(b"foo")]));
    assert_eq!(scan_all(b"1\r\n\r\n2"), Ok(vec![Token::Number(1), Token::Number(2)]));
}

#[test]
fn ascii_identifier_is_one_text() {
    assert_eq!(scan_all(b"foo"), Ok(vec![text(b"foo")]));
    assert_eq!(scan_all(b"x"), Ok(vec![text(b"x")]));
    assert_eq!(scan_all(b"_"), Ok(vec![text(b"_")]));
    assert_eq!(scan_all(b"_x1"), Ok(vec![text(b"_x1")]));
    assert_eq!(scan_all(b"Zz09_aA"), Ok(vec![text(b"Zz09_aA")]));
    assert_eq!(scan_all(b"abc12"), Ok(vec![text(b"abc12")]));
}

#[test]
fn accented_bytes_are_letters() {
    assert_eq!(scan_all(&[0xC0]), Ok(vec![text(&[0xC0])]));
    assert_eq!(scan_all(&[0xD6, 0xD8, 0xF6, 0xF8, 0xFF]), Ok(vec![text(&[0xD6, 0xD8, 0xF6, 0xF8, 0xFF])]));
    assert_eq!(scan_all(&[b'a', 0xE9, b'1']), Ok(vec![text(&[b'a', 0xE9, b'1'])]));
}

#[test]
fn bytes_outside_the_letter_ranges_are_invalid() {
    for byte in [0xD7u8, 0xF7, 0xBF, 0x80, 0x7F, 0x00, b'\n', b'\t', b'?', b'+', b'[', b'@', b'`', b'{'] {
        assert_eq!(
            scan_all(&[byte]),
            Err(ScanError::InvalidInput(Cause::UnexpectedByte(byte))),
            "byte {byte:#x}"
        );
    }
}

#[test]
fn text_stops_at_a_byte_outside_the_ranges() {
    assert_eq!(
        scan_all(&[b'a', 0xD7]),
        Err(ScanError::InvalidInput(Cause::UnexpectedByte(0xD7)))
    );
    let mut it = TokenIterator::new(vec![b'a', 0xD7]);
    assert_eq!(it.next(), Ok(Some(text(b"a"))));
    assert_eq!(it.next(), Err(ScanError::InvalidInput(Cause::UnexpectedByte(0xD7))));
}

#[test]
fn numeral_is_one_number() {
    assert_eq!(scan_all(b"-123"), Ok(vec![Token::Number(-123)]));
    assert_eq!(scan_all(b"007"), Ok(vec![Token::Number(7)]));
    assert_eq!(scan_all(b"0"), Ok(vec![Token::Number(0)]));
    assert_eq!(scan_all(b"-0"), Ok(vec![Token::Number(0)]));
    assert_eq!(scan_all(b"9"), Ok(vec![Token::Number(9)]));
    assert_eq!(scan_all(b"-7"), Ok(vec![Token::Number(-7)]));
    assert_eq!(scan_all(b"42"), Ok(vec![Token::Number(42)]));
    assert_eq!(scan_all(b"1234567890"), Ok(vec![Token::Number(1234567890)]));
}

#[test]
fn numerals_at_the_limits() {
    assert_eq!(scan_all(b"2147483647"), Ok(vec![Token::Number(i32::MAX)]));
    assert_eq!(scan_all(b"-2147483648"), Ok(vec![Token::Number(i32::MIN)]));
    assert_eq!(scan_all(b"-2147483647"), Ok(vec![Token::Number(-2147483647)]));
    assert_eq!(scan_all(b"00000000000000000002147483647"), Ok(vec![Token::Number(i32::MAX)]));
    assert_eq!(scan_all(b"-00000000000000000002147483648"), Ok(vec![Token::Number(i32::MIN)]));
    assert_eq!(scan_all(b"0000000000000000000000000000000"), Ok(vec![Token::Number(0)]));
}

#[test]
fn numeral_out_of_range_overflows() {
    assert_eq!(scan_all(b"2147483648"), Err(ScanError::NumericOverflow));
    assert_eq!(scan_all(b"-2147483649"), Err(ScanError::NumericOverflow));
    assert_eq!(scan_all(b"4294967296"), Err(ScanError::NumericOverflow));
    assert_eq!(scan_all(b"21474836470"), Err(ScanError::NumericOverflow));
    assert_eq!(scan_all(b"99999999999999999999999999999999999999"), Err(ScanError::NumericOverflow));
    assert_eq!(scan_all(b"-99999999999999999999999999999999999999"), Err(ScanError::NumericOverflow));
    assert_eq!(scan_all(b"18446744073709551616"), Err(ScanError::NumericOverflow));
    assert_eq!(scan_all(b"92233720368547758070"), Err(ScanError::NumericOverflow));
}

#[test]
fn each_punctuation_byte_alone() {
    assert_eq!(scan_all(b"("), Ok(vec![Token::LParen]));
    assert_eq!(scan_all(b")"), Ok(vec![Token::RParen]));
    assert_eq!(scan_all(b"$"), Ok(vec![Token::Dollar]));
    assert_eq!(scan_all(b"#"), Ok(vec![Token::Hash]));
    assert_eq!(scan_all(b"="), Ok(vec![Token::Equals]));
    assert_eq!(scan_all(b","), Ok(vec![Token::Comma]));
}

#[test]
fn punctuation_needs_no_blank_around_it() {
    assert_eq!(
        scan_all(b"foo(bar)"),
        Ok(vec![text(b"foo"), Token::LParen, text(b"bar"), Token::RParen])
    );
    assert_eq!(
        scan_all(b"a=1,b=-2"),
        Ok(vec![
            text(b"a"),
            Token::Equals,
            Token::Number(1),
            Token::Comma,
            text(b"b"),
            Token::Equals,
            Token::Number(-2),
        ])
    );
    assert_eq!(scan_all(b"$#"), Ok(vec![Token::Dollar, Token::Hash]));
    assert_eq!(scan_all(b"(("), Ok(vec![Token::LParen, Token::LParen]));
}

#[test]
fn minus_at_end_of_input_is_invalid() {
    assert_eq!(scan_all(b"-"), Err(ScanError::InvalidInput(Cause::DanglingMinus)));
    assert_eq!(scan_all(b"12 -"), Err(ScanError::InvalidInput(Cause::DanglingMinus)));
}

#[test]
fn minus_before_a_non_digit_is_invalid() {
    assert_eq!(scan_all(b"-x"), Err(ScanError::InvalidInput(Cause::DanglingMinus)));
    assert_eq!(scan_all(b"- 3"), Err(ScanError::InvalidInput(Cause::DanglingMinus)));
    assert_eq!(scan_all(b"--3"), Err(ScanError::InvalidInput(Cause::DanglingMinus)));
    assert_eq!(scan_all(b"-("), Err(ScanError::InvalidInput(Cause::DanglingMinus)));
    assert_eq!(scan_all(b"-\r\n3"), Err(ScanError::InvalidInput(Cause::DanglingMinus)));
}

#[test]
fn minus_binds_to_the_digits_behind_it() {
    assert_eq!(scan_all(b"1-2"), Ok(vec![Token::Number(1), Token::Number(-2)]));
    assert_eq!(scan_all(b"a-1"), Ok(vec![text(b"a"), Token::Number(-1)]));
    assert_eq!(scan_all(b"5-"), Err(ScanError::InvalidInput(Cause::DanglingMinus)));
}

#[test]
fn lone_carriage_return_is_invalid() {
    assert_eq!(scan_all(b"\rX"), Err(ScanError::InvalidInput(Cause::MalformedLineEnd)));
    assert_eq!(scan_all(b"\r "), Err(ScanError::InvalidInput(Cause::MalformedLineEnd)));
    assert_eq!(scan_all(b"\r\r\n"), Err(ScanError::InvalidInput(Cause::MalformedLineEnd)));
    assert_eq!(scan_all(b"a\rb"), Err(ScanError::InvalidInput(Cause::MalformedLineEnd)));
    assert_eq!(scan_all(b"a \r\n \r1"), Err(ScanError::InvalidInput(Cause::MalformedLineEnd)));
}

#[test]
fn overflow_before_a_lone_carriage_return_comes_first() {
    assert_eq!(scan_all(b"99999999999\rX"), Err(ScanError::NumericOverflow));
}

#[test]
fn carriage_return_as_last_byte_ends_the_input() {
    assert_eq!(scan_all(b"\r"), Ok(vec![]));
    assert_eq!(scan_all(b"a\r"), Ok(vec![text(b"a")]));
    assert_eq!(scan_all(b"1 \r\n\r"), Ok(vec![Token::Number(1)]));
}

#[test]
fn line_feed_without_carriage_return_is_unexpected() {
    assert_eq!(scan_all(b"\n"), Err(ScanError::InvalidInput(Cause::UnexpectedByte(b'\n'))));
    assert_eq!(scan_all(b"a\nb"), Err(ScanError::InvalidInput(Cause::UnexpectedByte(b'\n'))));
    assert_eq!(scan_all(b"\r\n\n"), Err(ScanError::InvalidInput(Cause::UnexpectedByte(b'\n'))));
}

#[test]
fn digits_before_letters_are_a_number_and_a_text() {
    assert_eq!(scan_all(b"12abc"), Ok(vec![Token::Number(12), text(b"abc")]));
    assert_eq!(scan_all(b"1a2"), Ok(vec![Token::Number(1), text(b"a2")]));
    assert_eq!(scan_all(b"-1_"), Ok(vec![Token::Number(-1), text(b"_")]));
}

#[test]
fn token_in_progress_is_flushed_at_end_of_input() {
    let mut it = TokenIterator::new(b"  abc".to_vec());
    assert_eq!(it.next(), Ok(Some(text(b"abc"))));
    assert_eq!(it.next(), Ok(None));
    let mut it = TokenIterator::new(b"  -456".to_vec());
    assert_eq!(it.next(), Ok(Some(Token::Number(-456))));
    assert_eq!(it.next(), Ok(None));
}

#[test]
fn tokens_come_one_by_one_in_input_order() {
    let mut it = TokenIterator::new(b"(foo $ 42 , -3)".to_vec());
    assert_eq!(it.next(), Ok(Some(Token::LParen)));
    assert_eq!(it.next(), Ok(Some(text(b"foo"))));
    assert_eq!(it.next(), Ok(Some(Token::Dollar)));
    assert_eq!(it.next(), Ok(Some(Token::Number(42))));
    assert_eq!(it.next(), Ok(Some(Token::Comma)));
    assert_eq!(it.next(), Ok(Some(Token::Number(-3))));
    assert_eq!(it.next(), Ok(Some(Token::RParen)));
    assert_eq!(it.next(), Ok(None));
}

#[test]
fn exhausted_scanner_stays_exhausted() {
    let mut it = TokenIterator::new(b"a  ".to_vec());
    assert_eq!(it.next(), Ok(Some(text(b"a"))));
    assert_eq!(it.next(), Ok(None));
    assert_eq!(it.next(), Ok(None));
    assert_eq!(it.next(), Ok(None));
    assert_eq!(it.collect(), Ok(vec![]));
}

#[test]
fn failure_cannot_be_skipped() {
    let mut it = TokenIterator::new(b"a ? b".to_vec());
    assert_eq!(it.next(), Ok(Some(text(b"a"))));
    let failure = Err(ScanError::InvalidInput(Cause::UnexpectedByte(b'?')));
    assert_eq!(it.next(), failure);
    assert_eq!(it.next(), failure);
    assert_eq!(it.collect(), Err(ScanError::InvalidInput(Cause::UnexpectedByte(b'?'))));
}

#[test]
fn overflow_cannot_be_skipped() {
    let mut it = TokenIterator::new(b"1 2147483648 3".to_vec());
    assert_eq!(it.next(), Ok(Some(Token::Number(1))));
    assert_eq!(it.next(), Err(ScanError::NumericOverflow));
    assert_eq!(it.next(), Err(ScanError::NumericOverflow));
}

#[test]
fn collect_gives_what_is_left() {
    let mut it = TokenIterator::new(b"a b c".to_vec());
    assert_eq!(it.next(), Ok(Some(text(b"a"))));
    assert_eq!(it.collect(), Ok(vec![text(b"b"), text(b"c")]));
}

#[test]
fn collect_fails_as_a_whole() {
    assert_eq!(scan_all(b"a b -"), Err(ScanError::InvalidInput(Cause::DanglingMinus)));
    assert_eq!(scan_all(b"( \r)"), Err(ScanError::InvalidInput(Cause::MalformedLineEnd)));
}

#[test]
fn joined_inputs_give_joined_tokens() {
    let pieces: [(&[u8], &[u8]); 8] = [
        (b"foo ", b"42"),
        (b"foo", b" 42"),
        (b"(a", b")"),
        (b"1", b"x"),
        (b"a,", b"b"),
        (b"a\r\n", b"b"),
        (b"", b"x y"),
        (b"x y", b""),
    ];
    for (a, b) in pieces {
        let mut joined = a.to_vec();
        joined.extend_from_slice(b);
        let mut expected = scan_all(a).unwrap();
        expected.extend(scan_all(b).unwrap());
        assert_eq!(scan_all(&joined), Ok(expected));
    }
}

#[test]
fn cut_inside_a_token_gives_other_tokens() {
    assert_eq!(scan_all(b"ab"), Ok(vec![text(b"ab")]));
    assert_eq!(scan_all(b"a"), Ok(vec![text(b"a")]));
    assert_eq!(scan_all(b"b"), Ok(vec![text(b"b")]));
    assert_eq!(scan_all(b"12"), Ok(vec![Token::Number(12)]));
    assert_eq!(scan_all(b"x1y"), Ok(vec![text(b"x1y")]));
    assert_eq!(scan_all(b"1y"), Ok(vec![Token::Number(1), text(b"y")]));
}

#[test]
fn resuming_gives_the_tokens_of_the_rest() {
    let input = b"(foo $ 42 , -3)";
    let mut it = TokenIterator::new(input.to_vec());
    assert_eq!(it.next(), Ok(Some(Token::LParen)));
    assert_eq!(it.next(), Ok(Some(text(b"foo"))));
    assert_eq!(it.collect(), scan_all(b" $ 42 , -3)"));
}

#[test]
fn invalid_input_anywhere_fails_the_scan() {
    assert_eq!(scan_all(b"a b ? c"), Err(ScanError::InvalidInput(Cause::UnexpectedByte(b'?'))));
    assert_eq!(scan_all(b"(x) - y"), Err(ScanError::InvalidInput(Cause::DanglingMinus)));
    assert_eq!(scan_all(b"x \r y"), Err(ScanError::InvalidInput(Cause::MalformedLineEnd)));
    assert_eq!(scan_all(b"12 34 5\n"), Err(ScanError::InvalidInput(Cause::UnexpectedByte(b'\n'))));
}

#[test]
fn end_of_line_token_is_never_produced() {
    let inputs: [&[u8]; 4] = [b"a\r\nb\r\n", b"\r\n", b"1\r\n2\r\n3", b"( \r\n )"];
    for input in inputs {
        let tokens = scan_all(input).unwrap();
        assert!(tokens.iter().all(|token| *token != Token::EndOfLine));
    }
}
