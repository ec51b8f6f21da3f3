use std::collections::HashMap;

use cs336_rs::types::{PackedPair, Span, TokenIds};
use cs336_rs::split::borders_fit_content;
use cs336_rs::utils::{
    find_chunk_boundaries, find_pretoken_spans, merge_count_map, pack_pair, train_bpe, vocab_with_special_first,
};
use cs336_rs::words::count_words;

fn corpus() -> Vec<(TokenIds, usize)> {
    let words: [(&[u8], usize); 4] = [(b"low", 5), (b"lower", 2), (b"widest", 3), (b"newest", 6)];
    words
        .iter()
        .map(|(w, n)| (w.iter().map(|&b| b as u16).collect(), *n))
        .collect()
}

#[test]
fn trained_vocab_is_bytes_then_merged_pairs() {
    let result = train_bpe(corpus(), 256 + 6, &[], 1).expect("no error");
    assert_eq!(result.vocab.len(), 256 + result.merges.len());
    for b in 0..256usize {
        assert_eq!(result.vocab[b], vec![b as u8]);
    }
    for (i, (first, second)) in result.merges.iter().enumerate() {
        let mut joined = first.clone();
        joined.extend_from_slice(second);
        assert_eq!(result.vocab[256 + i], joined);
    }
}

#[test]
fn trained_merges_follow_the_most_frequent_pair() {
    let result = train_bpe(corpus(), 256 + 6, &[], 1).expect("no error");
    // `s t` and `e s` both occur 9 times; of the two, the bytes of `s t` come last.
    assert_eq!(result.merges[0], (b"s".to_vec(), b"t".to_vec()));
    assert_eq!(result.merges[1], (b"e".to_vec(), b"st".to_vec()));
    assert_eq!(result.merges[2], (b"o".to_vec(), b"w".to_vec()));
    assert_eq!(result.merges[3], (b"l".to_vec(), b"ow".to_vec()));
    assert_eq!(result.merges[4], (b"w".to_vec(), b"est".to_vec()));
    assert_eq!(result.merges[5], (b"n".to_vec(), b"e".to_vec()));
    assert_eq!(result.merges.len(), 6);
}

#[test]
fn training_twice_gives_the_same_result() {
    let a = train_bpe(corpus(), 300, &[], 1).expect("no error");
    let b = train_bpe(corpus(), 300, &[], 4).expect("no error");
    assert_eq!(a.merges, b.merges);
    assert_eq!(a.vocab, b.vocab);
}

#[test]
fn count_words_counts_each_distinct_range_once_in_order() {
    let content = b"the cat the dog the";
    let spans: Vec<Span> = vec![(0, 3), (3, 7), (7, 11), (11, 15), (15, 19)];
    let entries = count_words(content, &spans);
    assert_eq!(
        entries,
        vec![
            (b"the".to_vec(), 1),
            (b" cat".to_vec(), 1),
            (b" the".to_vec(), 2),
            (b" dog".to_vec(), 1),
        ]
    );
    assert!(count_words(content, &[]).is_empty());
}

#[test]
fn merge_count_map_adds_counts_key_by_key() {
    let mut target: HashMap<PackedPair, usize> = HashMap::new();
    target.insert(pack_pair(1, 2), 3);
    target.insert(pack_pair(2, 3), 1);
    let mut source: HashMap<PackedPair, usize> = HashMap::new();
    source.insert(pack_pair(1, 2), 4);
    source.insert(pack_pair(9, 9), 2);
    merge_count_map(&mut target, source);
    assert_eq!(target.len(), 3);
    assert_eq!(target[&pack_pair(1, 2)], 7);
    assert_eq!(target[&pack_pair(2, 3)], 1);
    assert_eq!(target[&pack_pair(9, 9)], 2);
}

#[test]
fn count_words_of_the_pieces_between_special_tokens() {
    let text = "abc<|>abc<|>abc";
    let content = text.as_bytes();
    let special_token = vec!["<|>".to_string()];
    let boundaries = find_chunk_boundaries(content, 2, &special_token);
    let mut spans = find_pretoken_spans(content, &boundaries, &special_token).expect("operation should succeed");
    spans.sort();
    // each piece is one word, as `\w+` would match it
    let all_pieces: Vec<Span> = spans.into_iter().flatten().collect();
    let freq_map = count_words(content, &all_pieces);
    assert_eq!(freq_map.len(), 1);
    assert_eq!(freq_map, vec![(b"abc".to_vec(), 3)]);
}

#[test]
fn find_pretoken_spans_with_one_border_has_no_chunks() {
    let special_token = vec!["<|>".to_string()];
    let spans = find_pretoken_spans(b"abc", &[100], &special_token).expect("no chunk to read");
    assert!(spans.is_empty());
    assert!(borders_fit_content(b"abc", &[100]));
    assert!(!borders_fit_content(b"abc", &[0, 100]));
    assert!(!borders_fit_content(b"abc", &[]));
}

#[test]
fn vocab_with_special_first_shifts_the_trained_ids() {
    let vocab = vec![b"a".to_vec(), b"bc".to_vec()];
    let shifted = vocab_with_special_first(&"<|endoftext|>".to_string(), vocab);
    assert_eq!(
        shifted,
        vec![b"<|endoftext|>".to_vec(), b"a".to_vec(), b"bc".to_vec()]
    );
}

#[test]
fn training_is_the_same_for_every_thread_count() {
    let a = train_bpe(corpus(), 256 + 6, &[], 1).expect("no error");
    for threads in [2usize, 3, 8] {
        let b = train_bpe(corpus(), 256 + 6, &[], threads).expect("no error");
        assert_eq!(a.merges, b.merges);
        assert_eq!(a.vocab, b.vocab);
    }
}

#[test]
fn largest_pair_reads_the_vocabulary_only_on_ties() {
    let vocab = cs336_rs::utils::init_vocab();
    let mut count_map: HashMap<PackedPair, usize> = HashMap::new();
    count_map.insert(pack_pair(1000, 2), 5);
    count_map.insert(pack_pair(1, 2), 3);
    count_map.insert(pack_pair(3, 4), 3);
    assert_eq!(cs336_rs::utils::get_largest_pair(&count_map, &vocab), Some([1000, 2]));
}
