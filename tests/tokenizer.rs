use tantivy::tokenizer::{PreTokenizedStream, RemoveLongFilter, Token, TokenStream};

fn token(text: &str, position: usize, offset_from: usize) -> Token {
    Token {
        offset_from,
        offset_to: offset_from + text.len(),
        position,
        text: text.to_string(),
        position_length: 1,
    }
}

#[test]
fn long_tokens_are_removed() {
    let tokens = vec![token("toolong", 0, 0), token("nice", 1, 8)];
    let mut stream = RemoveLongFilter::limit(5).transform(PreTokenizedStream::new(tokens));
    assert!(stream.advance());
    assert_eq!(stream.token().text, "nice");
    assert!(!stream.advance());
}

#[test]
fn limit_is_exclusive_and_counts_bytes() {
    let tokens = vec![
        token("abcd", 0, 0),
        token("abcde", 1, 5),
        token("\u{e9}\u{e9}", 2, 11),
        token("\u{e9}\u{e9}\u{e9}", 3, 16),
    ];
    let mut stream = RemoveLongFilter::limit(5).transform(PreTokenizedStream::new(tokens));
    assert!(stream.advance());
    assert_eq!(stream.token().text, "abcd");
    assert!(stream.advance());
    assert_eq!(stream.token().text, "\u{e9}\u{e9}");
    assert_eq!(stream.token().position, 2);
    assert!(!stream.advance());
}

#[test]
fn pre_tokenized_stream_yields_in_order() {
    let mut stream = PreTokenizedStream::new(vec![token("a", 0, 0), token("b", 1, 2)]);
    assert!(stream.advance());
    assert_eq!(stream.token().text, "a");
    assert!(stream.advance());
    assert_eq!(stream.token().text, "b");
    assert!(!stream.advance());
    assert_eq!(stream.token().text, "b");
}
