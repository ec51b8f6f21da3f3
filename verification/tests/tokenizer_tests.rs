use std::collections::HashMap;

use cs336_rs::hex::hex_encode;
use cs336_rs::tokenizer::{merge_token_with_id, Replacement, Segment, Tokenizer};
use cs336_rs::types::{Span, TokenBytes};
use cs336_rs::utils::pack_pair;

fn small_vocab() -> HashMap<u16, TokenBytes> {
    let mut vocab: HashMap<u16, TokenBytes> = HashMap::new();
    for b in 0..256u16 {
        vocab.insert(b, vec![b as u8]);
    }
    vocab.insert(256, b"ab".to_vec());
    vocab.insert(257, b"abc".to_vec());
    vocab.insert(258, b"<|eot|>".to_vec());
    vocab
}

fn small_merges() -> Vec<(TokenBytes, TokenBytes)> {
    vec![(b"a".to_vec(), b"b".to_vec()), (b"ab".to_vec(), b"c".to_vec())]
}

#[test]
fn tokenizer_encodes_and_decodes_with_special_tokens() {
    let special = vec!["<|eot|>".to_string()];
    let t = Tokenizer::load_course(small_vocab(), small_merges(), Some(&special));
    let text = "xabc<|eot|>ab";
    let segments = t.special_segments(text.as_bytes());
    assert_eq!(segments, vec![Segment::Text(0, 4), Segment::Special(0), Segment::Text(11, 13)]);
    let pretokens: Vec<Vec<Span>> = vec![vec![(0, 1), (1, 4)], vec![], vec![(11, 13)]];
    let ids = t.encode(text, &pretokens);
    assert_eq!(ids, vec![b'x' as u16, 257, 258, 256]);
    assert_eq!(t.encode_mt(text, &pretokens, 4), ids);
    assert_eq!(t.decode(&ids), text);
}

#[test]
fn tokenizer_without_special_tokens_keeps_text_whole() {
    let t = Tokenizer::load_course(small_vocab(), small_merges(), None);
    let text = "ab<|eot|>";
    assert_eq!(t.special_segments(text.as_bytes()), vec![Segment::Text(0, 9)]);
    let ids = t.encode(text, &[vec![(0, 2), (2, 9)]]);
    assert_eq!(ids[0], 256);
    assert_eq!(t.decode(&ids), text);
}

#[test]
fn tokenizer_encode_word_merges_by_rank() {
    let t = Tokenizer::load_course(small_vocab(), small_merges(), None);
    assert_eq!(t.encode_word(b"abcab"), vec![257, 256]);
    assert_eq!(t.encode_word(b""), Vec::<u16>::new());
    assert_eq!(t.encode_word(b"ca"), vec![b'c' as u16, b'a' as u16]);
}

#[test]
fn tokenizer_load_appends_special_ids() {
    let vocab: Vec<TokenBytes> = (0..=255u8).map(|b| vec![b]).chain(vec![b"ab".to_vec()]).collect();
    let special = vec!["<|eot|>".to_string()];
    let t = Tokenizer::load(vocab, vec![(b"a".to_vec(), b"b".to_vec())], &special);
    let text = "ab<|eot|>";
    let segments = t.special_segments(text.as_bytes());
    assert_eq!(segments, vec![Segment::Text(0, 2), Segment::Special(0), Segment::Text(9, 9)]);
    let ids = t.encode(text, &[vec![(0, 2)], vec![], vec![]]);
    assert_eq!(ids, vec![256, 257]);
}

#[test]
fn tokenizer_try_load_splits_at_special_tokens() {
    let vocab: Vec<TokenBytes> = (0..=255u8).map(|b| vec![b]).chain(vec![b"ab".to_vec()]).collect();
    let special = vec!["".to_string(), "<|eot|>".to_string()];
    let t = Tokenizer::try_load(vocab.clone(), vec![(b"a".to_vec(), b"b".to_vec())], &special).expect("loads");
    let segments = t.special_segments(b"ab<|eot|>");
    assert_eq!(segments, vec![Segment::Text(0, 2), Segment::Special(0), Segment::Text(9, 9)]);
    let plain = Tokenizer::try_load(vocab.clone(), vec![(b"a".to_vec(), b"b".to_vec())], &[]).expect("loads");
    assert_eq!(plain.special_segments(b"ab<|eot|>"), vec![Segment::Text(0, 9)]);
    assert!(Tokenizer::try_load(vocab, vec![(b"a".to_vec(), b"zz".to_vec())], &[]).is_none());
}

#[test]
fn merge_token_with_id_merges_in_place() {
    let mut buf: Vec<u16> = vec![1, 2, 1, 2, 2, 9, 9];
    let replacement = Replacement { pair: pack_pair(1, 2), rank: 0, new_id: 7 };
    let count = merge_token_with_id(&mut buf, 5, &replacement);
    assert_eq!(count, 2);
    assert_eq!(&buf[..3], &[7, 7, 2]);
}

#[test]
fn merge_token_with_id_leaves_a_single_id() {
    let mut buf: Vec<u16> = vec![1, 2];
    let replacement = Replacement { pair: pack_pair(1, 2), rank: 0, new_id: 7 };
    let count = merge_token_with_id(&mut buf, 1, &replacement);
    assert_eq!(count, 0);
    assert_eq!(buf, vec![1, 2]);
}

#[test]
fn hex_encode_writes_two_digits_per_byte() {
    assert_eq!(hex_encode(&[0x00, 0x0f, 0xa5, 0xff]), "000fa5ff");
    assert_eq!(hex_encode(&[]), "");
}
