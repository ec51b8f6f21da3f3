//! Counting the words of a corpus: how often each distinct byte string occurs
//! among given ranges of the content.
use std::collections::HashMap;
use vstd::prelude::*;

use crate::tokenizer::{bytes_equal, bytes_hash, hash_bytes};
use crate::types::{Span, TokenBytes};

verus! {

broadcast use vstd::std_specs::hash::group_hash_axioms;

/// The bytes of each range.
pub open spec fn span_words(content: Seq<u8>, spans: Seq<Span>) -> Seq<Seq<u8>> {
    spans.map_values(|s: Span| content.subrange(s.0 as int, s.1 as int))
}

/// How often `w` occurs among words.
pub open spec fn word_count(ws: Seq<Seq<u8>>, w: Seq<u8>) -> nat
    decreases ws.len(),
{
    if ws.len() == 0 {
        0
    } else {
        word_count(ws.drop_last(), w) + if ws.last() == w {
            1nat
        } else {
            0nat
        }
    }
}

/// The words of counted entries.
pub open spec fn entry_words(entries: Seq<(TokenBytes, usize)>) -> Seq<Seq<u8>> {
    entries.map_values(|e: (TokenBytes, usize)| e.0@)
}

/// Whether counted entries are the distinct words among `ws`, each with how
/// often it occurs.
pub open spec fn counts_words(entries: Seq<(TokenBytes, usize)>, ws: Seq<Seq<u8>>) -> bool {
    &&& forall|i: int, j: int| 0 <= i < j < entries.len() ==> entries[i].0@ != entries[j].0@
    &&& forall|k: int| 0 <= k < entries.len() ==> (#[trigger] entries[k]).1 == word_count(ws, entries[k].0@) && entries[k].1 > 0
    &&& forall|w: Seq<u8>| #[trigger] word_count(ws, w) > 0 ==> entry_words(entries).contains(w)
}

/// Whether an index maps each hash to the positions of the entries whose words have it.
pub open spec fn positions_indexed(index: Map<u64, Vec<usize>>, entries: Seq<(TokenBytes, usize)>) -> bool {
    &&& forall|h: u64, m: int| #![trigger index[h]@[m]]
        index.contains_key(h) && 0 <= m < index[h]@.len() ==> index[h]@[m] < entries.len() && bytes_hash(
            entries[index[h]@[m] as int].0@,
        ) == h
    &&& forall|k: int| #![trigger entries[k]]
        0 <= k < entries.len() ==> index.contains_key(bytes_hash(entries[k].0@)) && index[bytes_hash(
            entries[k].0@,
        )]@.contains(k as usize)
}

/// Counts how often each distinct word occurs among the ranges of `content`, in
/// the order the words first occur.
pub fn count_words(content: &[u8], spans: &[Span]) -> (entries: Vec<(TokenBytes, usize)>)
    requires
        forall|j: int| 0 <= j < spans@.len() ==> (#[trigger] spans@[j]).0 <= spans@[j].1 <= content@.len(),
    ensures
        counts_words(entries@, span_words(content@, spans@)),
{
    let ghost ws = span_words(content@, spans@);
    let mut entries: Vec<(TokenBytes, usize)> = Vec::new();
    let mut index: HashMap<u64, Vec<usize>> = HashMap::new();
    for j in 0..spans.len()
        invariant
            ws == span_words(content@, spans@),
            forall|i: int| 0 <= i < spans@.len() ==> (#[trigger] spans@[i]).0 <= spans@[i].1 <= content@.len(),
            counts_words(entries@, ws.take(j as int)),
            positions_indexed(index@, entries@),
            forall|k: int| 0 <= k < entries@.len() ==> (#[trigger] entries@[k]).1 <= j,
            entries@.len() <= j,
    {
        let (s, e) = spans[j];
        proof {
            assert(spans@[j as int] == (s, e));
        }
        let slice: &[u8] = &content[s..e];
        let mut word: TokenBytes = Vec::new();
        for q in 0..slice.len()
            invariant
                word@ == slice@.take(q as int),
        {
            word.push(slice[q]);
            proof {
                assert(slice@.take(q + 1) =~= slice@.take(q as int).push(slice@[q as int]));
            }
        }
        proof {
            assert(slice@.take(slice@.len() as int) =~= slice@);
            assert(ws[j as int] == word@);
            assert(ws.take(j + 1).drop_last() =~= ws.take(j as int));
            assert(ws.take(j + 1).last() == word@);
        }
        let ghost wj = ws.take(j as int);
        let ghost wj1 = ws.take(j + 1);
        let h = hash_bytes(&word);
        let mut found: Option<usize> = None;
        match index.get(&h) {
            Some(bucket) => {
                let mut m: usize = 0;
                while m < bucket.len()
                    invariant
                        entries@.len() <= j,
                        positions_indexed(index@, entries@),
                        index@.contains_key(h),
                        bucket@ == index@[h]@,
                        m <= bucket@.len(),
                        found matches Some(k) ==> k < entries@.len() && entries@[k as int].0@ == word@,
                        found is None ==> forall|m2: int| 0 <= m2 < m ==> entries@[#[trigger] bucket@[m2] as int].0@ != word@,
                    decreases bucket@.len() - m,
                {
                    let k = bucket[m];
                    proof {
                        assert(index@[h]@[m as int] == k);
                    }
                    if found.is_none() && bytes_equal(&entries[k].0, &word) {
                        found = Some(k);
                    }
                    m += 1;
                }
                proof {
                    if found is None {
                        assert forall|k: int| 0 <= k < entries@.len() implies entries@[k].0@ != word@ by {
                            if entries@[k].0@ == word@ {
                                assert(bytes_hash(entries@[k].0@) == h);
                                assert(index@[h]@.contains(k as usize));
                                assert(bucket@.contains(k as usize));
                                let m2 = choose|m2: int| 0 <= m2 < bucket@.len() && bucket@[m2] == k as usize;
                                assert(bucket@[m2] as int == k);
                                assert(entries@[bucket@[m2] as int].0@ != word@);
                            }
                        }
                    }
                }
            },
            None => {
                proof {
                    assert forall|k: int| 0 <= k < entries@.len() implies entries@[k].0@ != word@ by {
                        if entries@[k].0@ == word@ {
                            assert(index@.contains_key(bytes_hash(entries@[k].0@)));
                        }
                    }
                }
            },
        }
        match found {
            Some(k) => {
                let ghost before = entries@;
                let count = entries[k].1;
                proof {
                    assert(word_count(wj, word@) == count);
                }
                entries[k].1 = count + 1;
                proof {
                    assert forall|k2: int| 0 <= k2 < entries@.len() implies (#[trigger] entries@[k2]).1 == word_count(
                        wj1,
                        entries@[k2].0@,
                    ) && entries@[k2].1 > 0 by {
                        assert(entries@[k2].0@ == before[k2].0@);
                        if k2 != k {
                            assert(before[k2].0@ != word@);
                        }
                    }
                    assert forall|w: Seq<u8>| #[trigger] word_count(wj1, w) > 0 implies entry_words(entries@).contains(w) by {
                        if w == word@ {
                            assert(entry_words(entries@)[k as int] == w);
                        } else {
                            assert(word_count(wj, w) > 0);
                            assert(entry_words(before).contains(w));
                            let k2 = choose|k2: int| 0 <= k2 < entry_words(before).len() && entry_words(before)[k2] == w;
                            assert(entry_words(entries@)[k2] == w);
                        }
                    }
                    assert forall|i: int, i2: int| 0 <= i < i2 < entries@.len() implies entries@[i].0@ != entries@[i2].0@ by {
                        assert(entries@[i].0@ == before[i].0@);
                        assert(entries@[i2].0@ == before[i2].0@);
                    }
                    assert(positions_indexed(index@, entries@)) by {
                        assert forall|k2: int| #![trigger entries@[k2]] 0 <= k2 < entries@.len() implies index@.contains_key(
                            bytes_hash(entries@[k2].0@),
                        ) && index@[bytes_hash(entries@[k2].0@)]@.contains(k2 as usize) by {
                            assert(entries@[k2].0@ == before[k2].0@);
                            assert(before[k2] == before[k2]);
                        }
                    }
                }
            },
            None => {
                let ghost before = entries@;
                let ghost old_index = index@;
                let pos = entries.len();
                let mut bucket: Vec<usize> = match index.get(&h) {
                    Some(b) => b.clone(),
                    None => Vec::new(),
                };
                proof {
                    if old_index.contains_key(h) {
                        assert(bucket@ =~= old_index[h]@);
                    }
                }
                let ghost old_bucket = bucket@;
                bucket.push(pos);
                index.insert(h, bucket);
                entries.push((word, 1));
                proof {
                    assert(word_count(wj, word@) == 0) by {
                        if word_count(wj, word@) > 0 {
                            assert(entry_words(before).contains(word@));
                            let k2 = choose|k2: int| 0 <= k2 < entry_words(before).len() && entry_words(before)[k2] == word@;
                            assert(before[k2].0@ == word@);
                        }
                    }
                    assert forall|k2: int| 0 <= k2 < entries@.len() implies (#[trigger] entries@[k2]).1 == word_count(
                        wj1,
                        entries@[k2].0@,
                    ) && entries@[k2].1 > 0 by {
                        if k2 < before.len() {
                            assert(entries@[k2] == before[k2]);
                            assert(before[k2].0@ != word@);
                        }
                    }
                    assert forall|w: Seq<u8>| #[trigger] word_count(wj1, w) > 0 implies entry_words(entries@).contains(w) by {
                        if w == word@ {
                            assert(entry_words(entries@)[pos as int] == w);
                        } else {
                            assert(word_count(wj, w) > 0);
                            assert(entry_words(before).contains(w));
                            let k2 = choose|k2: int| 0 <= k2 < entry_words(before).len() && entry_words(before)[k2] == w;
                            assert(entry_words(entries@)[k2] == w);
                        }
                    }
                    assert forall|i: int, i2: int| 0 <= i < i2 < entries@.len() implies entries@[i].0@ != entries@[i2].0@ by {
                        if i2 < before.len() {
                            assert(entries@[i] == before[i]);
                            assert(entries@[i2] == before[i2]);
                        } else {
                            assert(entries@[i] == before[i]);
                        }
                    }
                    assert forall|h2: u64, m: int| #![trigger index@[h2]@[m]]
                        index@.contains_key(h2) && 0 <= m < index@[h2]@.len() implies index@[h2]@[m] < entries@.len()
                            && bytes_hash(entries@[index@[h2]@[m] as int].0@) == h2 by {
                        if h2 == h {
                            if m < old_bucket.len() {
                                assert(old_bucket[m] == old_index[h]@[m]);
                                assert(entries@[old_bucket[m] as int] == before[old_bucket[m] as int]);
                            }
                        } else {
                            assert(index@[h2] == old_index[h2]);
                            assert(entries@[old_index[h2]@[m] as int] == before[old_index[h2]@[m] as int]);
                        }
                    }
                    assert forall|k2: int| #![trigger entries@[k2]] 0 <= k2 < entries@.len() implies index@.contains_key(
                        bytes_hash(entries@[k2].0@),
                    ) && index@[bytes_hash(entries@[k2].0@)]@.contains(k2 as usize) by {
                        if k2 < before.len() {
                            assert(entries@[k2] == before[k2]);
                            let h2 = bytes_hash(before[k2].0@);
                            assert(old_index[h2]@.contains(k2 as usize));
                            let m = choose|m: int| 0 <= m < old_index[h2]@.len() && old_index[h2]@[m] == k2 as usize;
                            if h2 == h {
                                assert(index@[h]@[m] == k2 as usize);
                            }
                        } else {
                            assert(index@[h]@[old_bucket.len() as int] == pos);
                        }
                    }
                }
            },
        }
    }
    proof {
        assert(ws.take(spans@.len() as int) =~= ws);
    }
    entries
}

} // verus!
