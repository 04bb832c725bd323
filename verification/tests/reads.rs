use tokenizer::source::gather;
use tokenizer::{Cause, ScanError, SourceRead, Token, TokenIterator};

fn bytes(input: &[u8]) -> Vec<SourceRead> {
    input.iter().map(|byte| SourceRead::Byte(*byte)).collect()
}

fn with_failure(before: &[u8], after: &[u8]) -> Vec<SourceRead> {
    let mut reads = bytes(before);
    reads.push(SourceRead::Failed);
    reads.extend(bytes(after));
    reads
}

#[test]
fn reads_without_failure_give_all_bytes() {
    assert_eq!(gather(&bytes(b"")), b"".to_vec());
    assert_eq!(gather(&bytes(b"(foo $ 42)")), b"(foo $ 42)".to_vec());
}

#[test]
fn failed_read_ends_the_input() {
    assert_eq!(gather(&with_failure(b"ab", b"cd")), b"ab".to_vec());
    assert_eq!(gather(&with_failure(b"", b"cd")), b"".to_vec());
    assert_eq!(gather(&with_failure(b"ab", b"")), b"ab".to_vec());
    assert_eq!(gather(&vec![SourceRead::Failed, SourceRead::Failed]), b"".to_vec());
    let mut twice = with_failure(b"a", b"b");
    twice.push(SourceRead::Failed);
    twice.push(SourceRead::Byte(b'c'));
    assert_eq!(gather(&twice), b"a".to_vec());
}

#[test]
fn scanning_reads_without_failure_is_scanning_the_bytes() {
    let input = b"(foo $ 42 , -3)";
    assert_eq!(
        TokenIterator::from_reads(bytes(input)).collect(),
        TokenIterator::new(input.to_vec()).collect()
    );
}

#[test]
fn failed_read_flushes_the_token_in_progress() {
    assert_eq!(
        TokenIterator::from_reads(with_failure(b"ab", b"cd")).collect(),
        Ok(vec![Token::Text(b"ab".to_vec())])
    );
    assert_eq!(
        TokenIterator::from_reads(with_failure(b"x 12", b"3")).collect(),
        Ok(vec![Token::Text(b"x".to_vec()), Token::Number(12)])
    );
}

#[test]
fn failed_read_is_no_failure_of_the_scan() {
    let mut it = TokenIterator::from_reads(with_failure(b"a ", b"?"));
    assert_eq!(it.next(), Ok(Some(Token::Text(b"a".to_vec()))));
    assert_eq!(it.next(), Ok(None));
    assert_eq!(it.next(), Ok(None));
    assert_eq!(TokenIterator::from_reads(with_failure(b"\r", b"x")).collect(), Ok(vec![]));
}

#[test]
fn failed_read_behind_a_minus_leaves_it_dangling() {
    assert_eq!(
        TokenIterator::from_reads(with_failure(b"-", b"1")).collect(),
        Err(ScanError::InvalidInput(Cause::DanglingMinus))
    );
}
