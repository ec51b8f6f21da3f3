use cs336_rs::file::{parse_merges, parse_vocab, serialize_merges, serialize_vocab};
use cs336_rs::types::TokenBytes;

#[test]
fn test_parse_vocab() {
    let content = "ā\n";
    let vocab = parse_vocab(&content);
    assert_eq!(vocab.len(), 1);
    assert_eq!(vocab[0], vec![1]);
}

#[test]
fn test_serialize_vocab() {
    let mut vocab: Vec<TokenBytes> = Vec::new();
    vocab.push(vec![1]);

    let content = serialize_vocab(&vocab);
    assert_eq!(content, "ā");
}

#[test]
fn test_parse_merges() {
    let content = "Ġ t\nĠ a";
    let merges = parse_merges(&content);
    assert_eq!(merges.len(), 2);
    assert_eq!(merges[0], (vec![32], vec![b't']));
    assert_eq!(merges[1], (vec![32], vec![b'a']));
}

#[test]
fn test_serialize_merges() {
    let mut merges = Vec::new();
    merges.push((vec![32], vec![b't']));
    merges.push((vec![32], vec![b'a']));
    let content = serialize_merges(&merges);
    assert_eq!(content, "Ġ t\nĠ a");
}

#[test]
fn file_vocab_roundtrip() {
    let vocab: Vec<TokenBytes> = vec![vec![0], vec![b'a', b'b'], vec![10, 13, 32]];
    assert_eq!(parse_vocab(&serialize_vocab(&vocab)), vocab);
}

#[test]
fn file_merges_roundtrip() {
    let merges: Vec<(TokenBytes, TokenBytes)> = vec![(vec![32], vec![b't']), (vec![b'a', b'b'], vec![9])];
    assert_eq!(parse_merges(&serialize_merges(&merges)), merges);
}

#[test]
fn file_parse_ignores_trailing_white_space_and_crlf() {
    let vocab = parse_vocab("a\r\nb\n\n  ");
    assert_eq!(vocab, vec![vec![b'a'], vec![b'b']]);
    let merges = parse_merges("a b\r\nc d\n");
    assert_eq!(merges, vec![(vec![b'a'], vec![b'b']), (vec![b'c'], vec![b'd'])]);
}

#[test]
fn file_empty_lists() {
    assert_eq!(serialize_vocab(&[]), "");
    assert_eq!(parse_vocab(""), Vec::<TokenBytes>::new());
    assert_eq!(serialize_merges(&[]), "");
    assert_eq!(parse_merges(""), Vec::<(TokenBytes, TokenBytes)>::new());
}
