use std::collections::HashMap;

use cs336_rs::types::{PackedPair, Span, TokenBytes, TokenId, TokenIds};
use cs336_rs::utils::{
    cmp_tuple, convert_freq_map_to_u16, find_chunk_boundaries, find_pretoken_spans, find_special_tokens,
    get_largest_pair, init_vocab, pack_pair, replace_pair_in_token, train_bpe, unpack_pair, PairCountDelta,
};

#[test]
fn test_find_special_tokens_should_return_the_smallest_occurance() {
    let data: TokenBytes = vec![1, 2, 3, 4, 5];
    let special_tokens_bytes: Vec<TokenBytes> = vec![vec![8], vec![5], vec![3]];

    let offset = find_special_tokens(&data, &special_tokens_bytes);
    assert_eq!(offset, Some(2));
}

#[test]
fn test_find_special_tokens_should_return_none() {
    let data: TokenBytes = vec![1, 2, 3, 4, 5];
    let special_tokens_bytes: Vec<TokenBytes> = vec![vec![8]];
    let offset = find_special_tokens(&data, &special_tokens_bytes);
    assert!(offset.is_none());
}

#[test]
fn test_find_special_tokens_with_empty_special_tokens() {
    let data: TokenBytes = vec![1, 2, 3, 4, 5];
    let special_tokens_bytes: Vec<TokenBytes> = vec![];
    let offset = find_special_tokens(&data, &special_tokens_bytes);
    assert!(offset.is_none());
}

#[test]
fn find_special_tokens_skips_empty_and_too_long_needles() {
    let data: TokenBytes = vec![1, 2, 3];
    let special_tokens_bytes: Vec<TokenBytes> = vec![vec![], vec![2, 3, 4], vec![3]];
    assert_eq!(find_special_tokens(&data, &special_tokens_bytes), Some(2));
}

#[test]
fn test_find_chunk_boundaries_1_chunk_should_return_start_and_end() {
    let content = vec![1, 2, 3];
    let special_tokens = vec!["a".to_string()];
    let boundaries = find_chunk_boundaries(&content, 1, &special_tokens);
    assert_eq!(boundaries.len(), 2);
    assert_eq!(boundaries[0], 0);
    assert_eq!(boundaries[1], content.len());
}

#[test]
fn test_find_chunk_boundaries_0_chunk_should_fall_to_1() {
    let content = vec![1, 2, 3];
    let special_tokens = vec!["a".to_string()];
    let boundaries = find_chunk_boundaries(&content, 0, &special_tokens);
    assert_eq!(boundaries.len(), 2);
    assert_eq!(boundaries[0], 0);
    assert_eq!(boundaries[1], content.len());
}

#[test]
fn test_find_chunk_boundaries_should_return_the_correct_location() {
    let text = "abc<|>abc<|>abc";
    let content = text.as_bytes();
    let special_token = vec!["<|>".to_string()];
    let boundaries = find_chunk_boundaries(&content, 2, &special_token);
    assert_eq!(boundaries.len(), 3);
    assert_eq!(boundaries[0], 0);
    assert_eq!(boundaries[1], 9);
    assert_eq!(boundaries[2], content.len());
}

#[test]
fn find_chunk_boundaries_drops_duplicates() {
    // no special token occurs: every inner border moves to the end
    let content = b"abcdefgh".to_vec();
    let special_tokens = vec!["<|>".to_string()];
    assert_eq!(find_chunk_boundaries(&content, 4, &special_tokens), vec![0, 8]);
}

#[test]
fn test_find_pretoken_spans() {
    let text = "abc<|>abc<|>abc";
    let content = text.as_bytes();
    let special_token = vec!["<|>".to_string()];
    let boundaries = find_chunk_boundaries(&content, 2, &special_token);
    let spans = find_pretoken_spans(&content, &boundaries, &special_token);
    let mut spans = spans.expect("operation should succeed");
    spans.sort();
    assert_eq!(spans.len(), 2);
    assert_eq!(spans[0], vec![(0, 3), (6, 9)]);
    assert_eq!(spans[1], vec![(12, 15)]);
}

#[test]
fn find_pretoken_spans_without_special_tokens_is_one_piece() {
    let content = b"abc".to_vec();
    let spans = find_pretoken_spans(&content, &[0, 3], &[String::new()]).expect("no error");
    assert_eq!(spans, vec![vec![(0, 3)]]);
}

#[test]
fn find_pretoken_spans_prefers_the_first_listed_token() {
    // both tokens match at 1; the one listed first wins
    let content = b"a<x>>b".to_vec();
    let tokens = vec!["<x>".to_string(), "<x>>".to_string()];
    let spans = find_pretoken_spans(&content, &[0, 6], &tokens).expect("no error");
    let expected: Vec<Span> = vec![(0, 1), (4, 6)];
    assert_eq!(spans, vec![expected]);
}

#[test]
fn find_pretoken_spans_rejects_invalid_utf8() {
    let content = vec![b'a', 0xFF, b'b'];
    let tokens = vec!["|".to_string()];
    let spans = find_pretoken_spans(&content, &[0, 3], &tokens);
    assert!(matches!(spans, Err(cs336_rs::error::CustomError::InvalidUtf8(_))));
}

#[test]
fn test_largest_pair() {
    let vocab = init_vocab();
    let mut count_map: HashMap<PackedPair, usize> = HashMap::new();

    count_map.insert(pack_pair('l' as u16, 'o' as u16), 7);
    count_map.insert(pack_pair('o' as u16, 'w' as u16), 7);
    count_map.insert(pack_pair('w' as u16, 'e' as u16), 8);
    count_map.insert(pack_pair('e' as u16, 'r' as u16), 2);
    count_map.insert(pack_pair('w' as u16, 'i' as u16), 3);
    count_map.insert(pack_pair('i' as u16, 'd' as u16), 3);
    count_map.insert(pack_pair('d' as u16, 'e' as u16), 3);
    count_map.insert(pack_pair('e' as u16, 's' as u16), 9);
    count_map.insert(pack_pair('s' as u16, 't' as u16), 9);
    count_map.insert(pack_pair('n' as u16, 'e' as u16), 6);
    count_map.insert(pack_pair('e' as u16, 'w' as u16), 6);

    let largest = get_largest_pair(&count_map, &vocab);
    assert_eq!(largest, Some(['s' as u16, 't' as u16]));
}

#[test]
fn largest_pair_of_nothing_is_none() {
    let vocab = init_vocab();
    let count_map: HashMap<PackedPair, usize> = HashMap::new();
    assert_eq!(get_largest_pair(&count_map, &vocab), None);
}

#[test]
fn utils_test_train_bpe() {
    let text = b"aaabdaaabac";
    let text_vec: Vec<u16> = text.iter().map(|&b| b as u16).collect();
    let mut freq_map: Vec<(TokenIds, usize)> = Vec::new();
    freq_map.push((text_vec, 1));
    let special_tokens = Vec::new();

    // 1
    let x = freq_map.clone();
    let result = train_bpe(x, 256 + 1, &special_tokens, 1).expect("shouln't throw error");
    assert_eq!(result.vocab.len(), 256 + 1);
    assert_eq!(result.vocab[256 + 0], b"aa".to_vec());
    assert_eq!(result.merges.len(), 1);
    assert_eq!(result.merges[0], (b"a".to_vec(), b"a".to_vec()));

    // 2
    let x = freq_map.clone();
    let result = train_bpe(x, 256 + 2, &special_tokens, 1).expect("shouln't throw error");
    assert_eq!(result.vocab.len(), 256 + 2);
    assert_eq!(result.vocab[256 + 0], b"aa".to_vec());
    assert_eq!(result.vocab[256 + 1], b"aaa".to_vec());
    assert_eq!(result.merges.len(), 2);
    assert_eq!(result.merges[0], (b"a".to_vec(), b"a".to_vec()));
    assert_eq!(result.merges[1], (b"aa".to_vec(), b"a".to_vec()));

    // 3
    let x = freq_map.clone();
    let result = train_bpe(x, 256 + 3, &special_tokens, 1).expect("shouln't throw error");
    assert_eq!(result.vocab.len(), 256 + 3);
    assert_eq!(result.vocab[256 + 0], b"aa".to_vec());
    assert_eq!(result.vocab[256 + 1], b"aaa".to_vec());
    assert_eq!(result.vocab[256 + 2], b"aaab".to_vec());
    assert_eq!(result.merges.len(), 3);
    assert_eq!(result.merges[0], (b"a".to_vec(), b"a".to_vec()));
    assert_eq!(result.merges[1], (b"aa".to_vec(), b"a".to_vec()));
    assert_eq!(result.merges[2], (b"aaa".to_vec(), b"b".to_vec()));
}

#[test]
fn train_bpe_stops_when_no_pair_is_left() {
    let freq_map: Vec<(TokenIds, usize)> = vec![(vec![b'a' as u16, b'b' as u16], 3)];
    let result = train_bpe(freq_map, 1000, &[], 2).expect("no error");
    assert_eq!(result.merges, vec![(b"a".to_vec(), b"b".to_vec())]);
    assert_eq!(result.vocab.len(), 257);
    assert_eq!(result.vocab[256], b"ab".to_vec());
}

#[test]
fn train_bpe_without_pairs_keeps_the_byte_vocab() {
    let freq_map: Vec<(TokenIds, usize)> = vec![(vec![b'a' as u16], 3)];
    let result = train_bpe(freq_map, 1000, &[], 1).expect("no error");
    assert!(result.merges.is_empty());
    assert_eq!(result.vocab, init_vocab());
}

#[test]
fn train_bpe_leaves_room_for_special_tokens() {
    let freq_map: Vec<(TokenIds, usize)> = vec![(b"abcabc".iter().map(|&b| b as u16).collect(), 1)];
    let special = vec!["<|endoftext|>".to_string()];
    let result = train_bpe(freq_map, 258, &special, 1).expect("no error");
    assert_eq!(result.merges.len(), 1);
    // ab and bc both occur twice, ca once: of the two, the bytes of `bc` come last
    assert_eq!(result.merges[0], (b"b".to_vec(), b"c".to_vec()));
}

#[test]
fn test_cmp_tuple() {
    let data: Vec<(TokenBytes, TokenBytes)> = vec![
        (vec![65], vec![66]),       // A B
        (vec![65], vec![67]),       // A C
        (vec![66], b"ZZ".to_vec()), // B ZZ
        (vec![66, 65], vec![65]),   // BA A
    ];

    let max = data
        .iter()
        .max_by(|a, b| cmp_tuple((&a.0, &a.1), (&b.0, &b.1)))
        .cloned();
    assert_eq!(max, Some((vec![66, 65], vec![65])));
}

#[test]
fn test_replace_pair_in_token() {
    let mut delta = PairCountDelta {
        removed: HashMap::new(),
        added: HashMap::new(),
    };
    let mut token: TokenIds = vec![67, 65, 66, 65, 66, 67];
    let pair: [TokenId; 2] = [65, 66];
    replace_pair_in_token(&mut token, &pair, 300, 1, &mut delta);

    assert_eq!(delta.removed.len(), 5);
    let removed_entries: [(PackedPair, usize); 5] = [
        (pack_pair(67, 65), 1),
        (pack_pair(65, 66), 2),
        (pack_pair(66, 65), 1),
        (pack_pair(66, 67), 1),
        (pack_pair(300, 65), 1),
    ];
    for (k, v) in removed_entries {
        assert_eq!(delta.removed.get(&k), Some(&v));
    }

    let added_entries: [(PackedPair, usize); 4] = [
        (pack_pair(67, 300), 1),
        (pack_pair(300, 65), 1),
        (pack_pair(300, 300), 1),
        (pack_pair(300, 67), 1),
    ];
    for (k, v) in added_entries {
        assert_eq!(delta.added.get(&k), Some(&v));
    }
}

#[test]
fn replace_pair_in_token_merges_the_word() {
    let mut delta = PairCountDelta { removed: HashMap::new(), added: HashMap::new() };
    let mut token: TokenIds = vec![67, 65, 66, 65, 66, 67];
    replace_pair_in_token(&mut token, &[65, 66], 300, 3, &mut delta);
    assert_eq!(token, vec![67, 300, 300, 67]);
    assert_eq!(delta.removed.get(&pack_pair(65, 66)), Some(&6));
    assert_eq!(delta.added.len(), 4);
}

#[test]
fn pack_and_unpack_pair() {
    assert_eq!(pack_pair(1, 2), 0x0001_0002);
    assert_eq!(unpack_pair(0xFFFF_0003), [0xFFFF, 3]);
    assert_eq!(unpack_pair(pack_pair(300, 65)), [300, 65]);
}

#[test]
fn convert_freq_map_keeps_order_and_counts() {
    let map: Vec<(TokenBytes, usize)> = vec![(b"ab".to_vec(), 2), (vec![255], 1)];
    let converted = convert_freq_map_to_u16(map);
    assert_eq!(converted, vec![(vec![97u16, 98], 2), (vec![255u16], 1)]);
}
