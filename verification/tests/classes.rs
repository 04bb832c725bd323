use tokenizer::class::{is_digit, is_letter, is_text_byte};
use tokenizer::token::punctuation_token;
use tokenizer::Token;

#[test]
fn letters_are_the_documented_ranges() {
    for byte in 0u8..=255 {
        let expected = byte == b'_'
            || byte.is_ascii_alphabetic()
            || (0xC0..=0xD6).contains(&byte)
            || (0xD8..=0xF6).contains(&byte)
            || byte >= 0xF8;
        assert_eq!(is_letter(byte), expected, "byte {byte:#x}");
    }
}

#[test]
fn letter_range_boundaries() {
    assert!(is_letter(b'A') && is_letter(b'Z') && is_letter(b'a') && is_letter(b'z'));
    assert!(!is_letter(b'@') && !is_letter(b'[') && !is_letter(b'`') && !is_letter(b'{'));
    assert!(is_letter(0xC0) && is_letter(0xD6) && is_letter(0xD8) && is_letter(0xF6));
    assert!(is_letter(0xF8) && is_letter(0xFF));
    assert!(!is_letter(0xBF) && !is_letter(0xD7) && !is_letter(0xF7));
    assert!(!is_letter(b'0') && !is_letter(b'-') && !is_letter(b' '));
}

#[test]
fn digits_are_ascii_digits() {
    for byte in 0u8..=255 {
        assert_eq!(is_digit(byte), byte.is_ascii_digit(), "byte {byte:#x}");
    }
}

#[test]
fn text_bytes_are_letters_and_digits() {
    for byte in 0u8..=255 {
        assert_eq!(is_text_byte(byte), is_letter(byte) || is_digit(byte), "byte {byte:#x}");
    }
    assert!(is_text_byte(b'_') && is_text_byte(b'7') && !is_text_byte(b'-'));
}

#[test]
fn punctuation_bytes_have_their_tokens() {
    assert_eq!(punctuation_token(b'('), Some(Token::LParen));
    assert_eq!(punctuation_token(b')'), Some(Token::RParen));
    assert_eq!(punctuation_token(b'$'), Some(Token::Dollar));
    assert_eq!(punctuation_token(b'#'), Some(Token::Hash));
    assert_eq!(punctuation_token(b'='), Some(Token::Equals));
    assert_eq!(punctuation_token(b','), Some(Token::Comma));
}

#[test]
fn other_bytes_are_no_punctuation() {
    let marks = [b'(', b')', b'$', b'#', b'=', b','];
    for byte in 0u8..=255 {
        if !marks.contains(&byte) {
            assert_eq!(punctuation_token(byte), None, "byte {byte:#x}");
        }
    }
}
