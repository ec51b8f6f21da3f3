//! What decoding gives back of an encoding: the bytes of the text, when the
//! tokenizer's tokens agree with its merges, bytes and special tokens, and the
//! pre-tokens of each range of text cover it.
use vstd::prelude::*;

use crate::pairs::{merge, pair_hi, pair_lo};
use crate::split::{alt_match_index, lemma_alt_match_occurs, occurs_at};
use crate::tokenizer::{
    byte_rules, byte_tokens, course_special_ids, course_specials_ok, id_below, merge_rules, merges_known, token_id,
    best_pair, bpe, byte_ids, decoded_bytes, lemma_best_upto_occurs, lemma_merge_shorter, segments_from,
    special_id_of, MergeRule, Segment, Tokenizer,
};
use crate::pairs::{lemma_pack_unpack, lemma_unpack_pack};
use crate::types::Span;
use vstd::string::*;

verus! {

/// Every id has a token.
pub open spec fn ids_known(dec: Map<u16, Seq<u8>>, ids: Seq<u16>) -> bool {
    forall|i: int| 0 <= i < ids.len() ==> dec.contains_key(#[trigger] ids[i])
}

/// Whether every merge rule merges two tokens into the token of their bytes together.
pub open spec fn rules_agree(dec: Map<u16, Seq<u8>>, enc: Map<u32, MergeRule>) -> bool {
    forall|q: u32| #[trigger] enc.contains_key(q) ==> {
        &&& dec.contains_key(pair_hi(q))
        &&& dec.contains_key(pair_lo(q))
        &&& dec.contains_key(enc[q].new_id)
        &&& dec[enc[q].new_id] == dec[pair_hi(q)] + dec[pair_lo(q)]
    }
}

/// Whether the token of each byte is that byte.
pub open spec fn bytes_agree(dec: Map<u16, Seq<u8>>, bm: Map<u8, u16>) -> bool {
    forall|b: u8| #[trigger] bm.contains_key(b) ==> dec.contains_key(bm[b]) && dec[bm[b]] == seq![b]
}

/// Whether the token of each special token's id is its bytes.
pub open spec fn specials_agree(dec: Map<u16, Seq<u8>>, ids: Seq<(Seq<u8>, u16)>) -> bool {
    forall|i: int| 0 <= i < ids.len() ==> dec.contains_key(#[trigger] ids[i].1) && dec[ids[i].1] == ids[i].0
}

/// Whether spans cover `[s, e)` one after another.
pub open spec fn spans_tile(sp: Seq<Span>, s: int, e: int) -> bool {
    if sp.len() == 0 {
        s == e
    } else {
        &&& sp[0].0 == s
        &&& sp.last().1 == e
        &&& forall|j: int| 0 <= j < sp.len() - 1 ==> #[trigger] sp[j].1 == sp[j + 1].0
    }
}

/// Whether the pre-tokens of each range of text cover it.
pub open spec fn pretokens_tile(segments: Seq<Segment>, pretokens: Seq<Seq<Span>>) -> bool {
    forall|k: int| 0 <= k < segments.len() ==> (#[trigger] segments[k] matches Segment::Text(s, e) ==> spans_tile(
        pretokens[k],
        s as int,
        e as int,
    ))
}

/// The bytes the parts of a text stand for: the bytes of each range of text, and
/// of each special token.
pub open spec fn parts_bytes(content: Seq<u8>, patterns: Seq<Seq<u8>>, segments: Seq<Segment>) -> Seq<u8>
    decreases segments.len(),
{
    if segments.len() == 0 {
        seq![]
    } else {
        parts_bytes(content, patterns, segments.drop_last()) + match segments.last() {
            Segment::Text(s, e) => content.subrange(s as int, e as int),
            Segment::Special(t) => patterns[t as int],
        }
    }
}

/// Decoding two lists of ids one after another.
pub proof fn lemma_decoded_concat(dec: Map<u16, Seq<u8>>, s1: Seq<u16>, s2: Seq<u16>)
    ensures
        decoded_bytes(dec, s1 + s2) == decoded_bytes(dec, s1) + decoded_bytes(dec, s2),
    decreases s2.len(),
{
    if s2.len() == 0 {
        assert(s1 + s2 =~= s1);
    } else {
        lemma_decoded_concat(dec, s1, s2.drop_last());
        assert((s1 + s2).drop_last() =~= s1 + s2.drop_last());
    }
}

/// Decoding one id.
pub proof fn lemma_decoded_one(dec: Map<u16, Seq<u8>>, x: u16)
    ensures
        decoded_bytes(dec, seq![x]) == dec[x],
{
    assert(seq![x].drop_last() =~= Seq::<u16>::empty());
    assert(decoded_bytes(dec, Seq::<u16>::empty()) == Seq::<u8>::empty());
    assert(seq![x].last() == x);
    assert(decoded_bytes(dec, seq![x]) == decoded_bytes(dec, seq![x].drop_last()) + dec[seq![x].last()]);
    assert(Seq::<u8>::empty() + dec[x] =~= dec[x]);
}

/// Merging a pair into a token of their bytes together decodes to the same bytes.
pub proof fn lemma_decoded_merge(dec: Map<u16, Seq<u8>>, w: Seq<u16>, a: u16, b: u16, x: u16)
    requires
        dec[x] == dec[a] + dec[b],
    ensures
        decoded_bytes(dec, merge(w, a, b, x)) == decoded_bytes(dec, w),
        ids_known(dec, w) && dec.contains_key(x) ==> ids_known(dec, merge(w, a, b, x)),
    decreases w.len(),
{
    if w.len() >= 2 && w[0] == a && w[1] == b {
        let t = w.skip(2);
        lemma_decoded_merge(dec, t, a, b, x);
        lemma_decoded_concat(dec, seq![x], merge(t, a, b, x));
        lemma_decoded_one(dec, x);
        assert(w =~= seq![a] + (seq![b] + t));
        lemma_decoded_concat(dec, seq![a], seq![b] + t);
        lemma_decoded_concat(dec, seq![b], t);
        lemma_decoded_one(dec, a);
        lemma_decoded_one(dec, b);
        if ids_known(dec, w) && dec.contains_key(x) {
            assert forall|i: int| 0 <= i < t.len() implies dec.contains_key(#[trigger] t[i]) by {
                assert(t[i] == w[i + 2]);
            }
            let m = seq![x] + merge(t, a, b, x);
            assert forall|i: int| 0 <= i < m.len() implies dec.contains_key(#[trigger] m[i]) by {
                if i > 0 {
                    assert(m[i] == merge(t, a, b, x)[i - 1]);
                }
            }
        }
    } else if w.len() > 0 {
        let t = w.skip(1);
        lemma_decoded_merge(dec, t, a, b, x);
        lemma_decoded_concat(dec, seq![w[0]], merge(t, a, b, x));
        assert(w =~= seq![w[0]] + t);
        lemma_decoded_concat(dec, seq![w[0]], t);
        if ids_known(dec, w) && dec.contains_key(x) {
            assert forall|i: int| 0 <= i < t.len() implies dec.contains_key(#[trigger] t[i]) by {
                assert(t[i] == w[i + 1]);
            }
            let m = seq![w[0]] + merge(t, a, b, x);
            assert forall|i: int| 0 <= i < m.len() implies dec.contains_key(#[trigger] m[i]) by {
                if i > 0 {
                    assert(m[i] == merge(t, a, b, x)[i - 1]);
                }
            }
        }
    }
}

/// Byte-pair encoding with merges that agree with the tokens decodes to the same bytes.
pub proof fn lemma_decoded_bpe(dec: Map<u16, Seq<u8>>, enc: Map<u32, MergeRule>, w: Seq<u16>)
    requires
        rules_agree(dec, enc),
    ensures
        decoded_bytes(dec, bpe(w, enc)) == decoded_bytes(dec, w),
        ids_known(dec, w) ==> ids_known(dec, bpe(w, enc)),
    decreases w.len(),
{
    match best_pair(w, enc) {
        None => {},
        Some(q) => {
            let i = lemma_best_upto_occurs(w, enc, w.len() - 1);
            assert(enc.contains_key(q));
            let m = merge(w, pair_hi(q), pair_lo(q), enc[q].new_id);
            lemma_unpack_pack(q);
            lemma_pack_unpack(w[i], w[i + 1]);
            lemma_merge_shorter(w, pair_hi(q), pair_lo(q), enc[q].new_id, i);
            lemma_decoded_merge(dec, w, pair_hi(q), pair_lo(q), enc[q].new_id);
            lemma_decoded_bpe(dec, enc, m);
        },
    }
}

/// The tokens of bytes, each byte by itself, decode to the bytes.
pub proof fn lemma_decoded_byte_ids(dec: Map<u16, Seq<u8>>, bm: Map<u8, u16>, bytes: Seq<u8>)
    requires
        bytes_agree(dec, bm),
        forall|j: int| 0 <= j < bytes.len() ==> bm.contains_key(#[trigger] bytes[j]),
    ensures
        decoded_bytes(dec, byte_ids(bytes, bm)) == bytes,
        ids_known(dec, byte_ids(bytes, bm)),
    decreases bytes.len(),
{
    if bytes.len() > 0 {
        let init = bytes.drop_last();
        lemma_decoded_byte_ids(dec, bm, init);
        assert(byte_ids(bytes, bm).drop_last() =~= byte_ids(init, bm));
        assert(bm.contains_key(bytes.last()));
        assert(init + seq![bytes.last()] =~= bytes);
        assert forall|i: int| 0 <= i < byte_ids(bytes, bm).len() implies dec.contains_key(#[trigger] byte_ids(bytes, bm)[i]) by {
            assert(bm.contains_key(bytes[i]));
        }
    }
}

/// The encoded pre-tokens of a text range decode to its bytes, when they cover it.
pub proof fn lemma_decoded_spans(t: Tokenizer, content: Seq<u8>, sp: Seq<Span>, n: int)
    requires
        rules_agree(t.decoder_map(), t.encoder_map()),
        bytes_agree(t.decoder_map(), t.byte_map()),
        0 < n <= sp.len(),
        forall|j: int| 0 <= j < sp.len() ==> {
            &&& (#[trigger] sp[j]).0 <= sp[j].1 <= content.len()
            &&& forall|q: int| sp[j].0 <= q < sp[j].1 ==> t.byte_map().contains_key(#[trigger] content[q])
        },
        forall|j: int| 0 <= j < sp.len() - 1 ==> #[trigger] sp[j].1 == sp[j + 1].0,
    ensures
        decoded_bytes(t.decoder_map(), t.encoded_spans(content, sp, n)) == content.subrange(sp[0].0 as int, sp[n - 1].1 as int),
        ids_known(t.decoder_map(), t.encoded_spans(content, sp, n)),
    decreases n,
{
    let dec = t.decoder_map();
    let word = content.subrange(sp[n - 1].0 as int, sp[n - 1].1 as int);
    assert(sp[n - 1].0 <= sp[n - 1].1 <= content.len());
    assert forall|j: int| 0 <= j < word.len() implies t.byte_map().contains_key(#[trigger] word[j]) by {
        assert(word[j] == content[sp[n - 1].0 + j]);
    }
    lemma_decoded_byte_ids(dec, t.byte_map(), word);
    lemma_decoded_bpe(dec, t.encoder_map(), byte_ids(word, t.byte_map()));
    let here = bpe(byte_ids(word, t.byte_map()), t.encoder_map());
    if n == 1 {
        assert(t.encoded_spans(content, sp, 0) =~= Seq::<u16>::empty());
        assert(seq![] + here =~= here);
        assert(t.encoded_spans(content, sp, 1) =~= here);
    } else {
        lemma_decoded_spans(t, content, sp, n - 1);
        let before = t.encoded_spans(content, sp, n - 1);
        lemma_decoded_concat(dec, before, here);
        assert(sp[n - 2].1 == sp[n - 1].0);
        assert(sp[0].0 <= sp[n - 2].1) by {
            lemma_spans_ordered(sp, content, n - 2);
        }
        assert(content.subrange(sp[0].0 as int, sp[n - 2].1 as int) + word =~= content.subrange(
            sp[0].0 as int,
            sp[n - 1].1 as int,
        ));
        assert forall|i: int| 0 <= i < before.len() + here.len() implies dec.contains_key(#[trigger] (before + here)[i]) by {
            if i < before.len() {
                assert((before + here)[i] == before[i]);
            } else {
                assert((before + here)[i] == here[i - before.len()]);
            }
        }
    }
}

/// Spans that follow one another start no later than they end.
proof fn lemma_spans_ordered(sp: Seq<Span>, content: Seq<u8>, j: int)
    requires
        0 <= j < sp.len(),
        forall|k: int| 0 <= k < sp.len() ==> (#[trigger] sp[k]).0 <= sp[k].1,
        forall|k: int| 0 <= k < sp.len() - 1 ==> #[trigger] sp[k].1 == sp[k + 1].0,
    ensures
        sp[0].0 <= sp[j].1,
    decreases j,
{
    if j > 0 {
        lemma_spans_ordered(sp, content, j - 1);
        assert(sp[j - 1].1 == sp[j].0);
    }
}

/// The bytes of the parts of a text, two lists of parts one after another.
pub proof fn lemma_parts_concat(content: Seq<u8>, patterns: Seq<Seq<u8>>, s1: Seq<Segment>, s2: Seq<Segment>)
    ensures
        parts_bytes(content, patterns, s1 + s2) == parts_bytes(content, patterns, s1) + parts_bytes(content, patterns, s2),
    decreases s2.len(),
{
    if s2.len() == 0 {
        assert(s1 + s2 =~= s1);
    } else {
        lemma_parts_concat(content, patterns, s1, s2.drop_last());
        assert((s1 + s2).drop_last() =~= s1 + s2.drop_last());
    }
}

/// The parts found by scanning from `i`, with text from `cursor`, stand for the
/// bytes from `cursor` to the end.
pub proof fn lemma_segments_cover(content: Seq<u8>, patterns: Seq<Seq<u8>>, cursor: int, i: int)
    requires
        0 <= cursor <= i <= content.len(),
        content.len() <= usize::MAX,
        patterns.len() <= usize::MAX,
    ensures
        parts_bytes(content, patterns, segments_from(content, patterns, cursor, i)) == content.subrange(cursor, content.len() as int),
    decreases content.len() - i,
{
    let segs = segments_from(content, patterns, cursor, i);
    if i >= content.len() {
        let one = seq![Segment::Text(cursor as usize, content.len() as usize)];
        assert(one.drop_last() =~= Seq::<Segment>::empty());
        assert(parts_bytes(content, patterns, Seq::<Segment>::empty()) == Seq::<u8>::empty());
        assert(Seq::<u8>::empty() + content.subrange(cursor, content.len() as int) =~= content.subrange(cursor, content.len() as int));
        assert((cursor as usize) as int == cursor && (content.len() as usize) as int == content.len());
        assert(parts_bytes(content, patterns, one) == parts_bytes(content, patterns, one.drop_last()) + content.subrange(
            cursor,
            content.len() as int,
        ));
    } else {
        match alt_match_index(content, patterns, i, 0) {
            Some(t) => {
                if 0 <= t < patterns.len() && 0 < patterns[t].len() && i + patterns[t].len() <= content.len() {
                    let l = patterns[t].len() as int;
                    lemma_segments_cover(content, patterns, i + l, i + l);
                    lemma_alt_match_occurs(content, patterns, i, 0);
                    let two = seq![Segment::Text(cursor as usize, i as usize), Segment::Special(t as usize)];
                    let rest = segments_from(content, patterns, i + l, i + l);
                    lemma_parts_concat(content, patterns, two, rest);
                    assert(two.drop_last() =~= seq![Segment::Text(cursor as usize, i as usize)]);
                    assert(seq![Segment::Text(cursor as usize, i as usize)].drop_last() =~= Seq::<Segment>::empty());
                    assert(parts_bytes(content, patterns, Seq::<Segment>::empty()) == Seq::<u8>::empty());
                    assert(occurs_at(content, patterns[t], i));
                    assert(content.subrange(i, i + l) == patterns[t]);
                    assert((cursor as usize) as int == cursor && (i as usize) as int == i && (t as usize) as int == t);
                    let one = seq![Segment::Text(cursor as usize, i as usize)];
                    assert(parts_bytes(content, patterns, one) == parts_bytes(content, patterns, one.drop_last())
                        + content.subrange(cursor, i));
                    assert(Seq::<u8>::empty() + content.subrange(cursor, i) =~= content.subrange(cursor, i));
                    assert(parts_bytes(content, patterns, one) =~= content.subrange(cursor, i));
                    assert(two.last() == Segment::Special(t as usize));
                    assert(parts_bytes(content, patterns, two) == parts_bytes(content, patterns, one) + patterns[t]);
                    assert(content.subrange(cursor, i) + content.subrange(i, i + l) + content.subrange(i + l, content.len() as int)
                        =~= content.subrange(cursor, content.len() as int));
                } else {
                    lemma_segments_cover(content, patterns, cursor, i + 1);
                }
            },
            None => {
                lemma_segments_cover(content, patterns, cursor, i + 1);
            },
        }
    }
}

/// A special token's id found by its bytes is one recorded with those bytes.
pub proof fn lemma_special_id_found(ids: Seq<(Seq<u8>, u16)>, bytes: Seq<u8>) -> (i: int)
    requires
        special_id_of(ids, bytes) is Some,
    ensures
        0 <= i < ids.len(),
        ids[i] == (bytes, special_id_of(ids, bytes)->0),
    decreases ids.len(),
{
    if ids.last().0 == bytes {
        ids.len() - 1
    } else {
        lemma_special_id_found(ids.drop_last(), bytes)
    }
}

/// Whether every range of text of the parts lies in order within the content.
pub open spec fn ranges_fit(segments: Seq<Segment>, len: int) -> bool {
    forall|k: int| 0 <= k < segments.len() ==> (#[trigger] segments[k] matches Segment::Text(s, e) ==> s <= e <= len)
}

/// The parts found by scanning lie within the content.
pub proof fn lemma_segments_fit(content: Seq<u8>, patterns: Seq<Seq<u8>>, cursor: int, i: int)
    requires
        0 <= cursor <= i <= content.len(),
        content.len() <= usize::MAX,
    ensures
        ranges_fit(segments_from(content, patterns, cursor, i), content.len() as int),
        forall|k: int| #![trigger segments_from(content, patterns, cursor, i)[k]]
            0 <= k < segments_from(content, patterns, cursor, i).len() ==> (segments_from(content, patterns, cursor, i)[k] matches Segment::Special(
                t,
            ) ==> t < patterns.len()),
    decreases content.len() - i,
{
    let segs = segments_from(content, patterns, cursor, i);
    if i < content.len() {
        match alt_match_index(content, patterns, i, 0) {
            Some(t) => {
                if 0 <= t < patterns.len() && 0 < patterns[t].len() && i + patterns[t].len() <= content.len() {
                    let l = patterns[t].len() as int;
                    lemma_segments_fit(content, patterns, i + l, i + l);
                    let two = seq![Segment::Text(cursor as usize, i as usize), Segment::Special(t as usize)];
                    let rest = segments_from(content, patterns, i + l, i + l);
                    assert forall|k: int| 0 <= k < segs.len() implies (#[trigger] segs[k] matches Segment::Text(s, e) ==> s <= e
                        <= content.len()) && (segs[k] matches Segment::Special(u) ==> u < patterns.len()) by {
                        if k >= 2 {
                            assert(segs[k] == rest[k - 2]);
                        }
                    }
                } else {
                    lemma_segments_fit(content, patterns, cursor, i + 1);
                }
            },
            None => {
                lemma_segments_fit(content, patterns, cursor, i + 1);
            },
        }
    }
}

/// The encoding of the first `k` parts decodes to their bytes.
pub proof fn lemma_decoded_parts(t: Tokenizer, content: Seq<u8>, segments: Seq<Segment>, pretokens: Seq<Seq<Span>>, k: int)
    requires
        rules_agree(t.decoder_map(), t.encoder_map()),
        bytes_agree(t.decoder_map(), t.byte_map()),
        specials_agree(t.decoder_map(), t.special_ids()),
        0 <= k <= segments.len(),
        pretokens.len() == segments.len(),
        t.pretokens_fit(content, pretokens),
        t.specials_known(segments),
        pretokens_tile(segments, pretokens),
        ranges_fit(segments, content.len() as int),
    ensures
        decoded_bytes(t.decoder_map(), t.encoded_parts(content, segments, pretokens, k)) == parts_bytes(
            content,
            t.patterns(),
            segments.take(k),
        ),
        ids_known(t.decoder_map(), t.encoded_parts(content, segments, pretokens, k)),
    decreases k,
{
    let dec = t.decoder_map();
    if k == 0 {
        assert(segments.take(0) =~= Seq::<Segment>::empty());
        assert(t.encoded_parts(content, segments, pretokens, 0) =~= Seq::<u16>::empty());
    } else {
        lemma_decoded_parts(t, content, segments, pretokens, k - 1);
        let before = t.encoded_parts(content, segments, pretokens, k - 1);
        assert(segments.take(k).drop_last() =~= segments.take(k - 1));
        assert(segments.take(k).last() == segments[k - 1]);
        let seg = segments[k - 1];
        let here = match seg {
            Segment::Text(_, _) => t.encoded_spans(content, pretokens[k - 1], pretokens[k - 1].len() as int),
            Segment::Special(u) => seq![special_id_of(t.special_ids(), t.patterns()[u as int])->0],
        };
        assert(t.encoded_parts(content, segments, pretokens, k) == before + here);
        lemma_decoded_concat(dec, before, here);
        match seg {
            Segment::Text(s, e) => {
                let sp = pretokens[k - 1];
                assert(spans_tile(sp, s as int, e as int));
                assert(s <= e <= content.len());
                if sp.len() == 0 {
                    assert(here =~= Seq::<u16>::empty());
                    assert(content.subrange(s as int, e as int) =~= Seq::<u8>::empty());
                } else {
                    assert forall|j: int| 0 <= j < sp.len() implies {
                        &&& (#[trigger] sp[j]).0 <= sp[j].1 <= content.len()
                        &&& forall|q: int| sp[j].0 <= q < sp[j].1 ==> t.byte_map().contains_key(#[trigger] content[q])
                    } by {
                        assert(pretokens[k - 1][j] == sp[j]);
                    }
                    lemma_decoded_spans(t, content, sp, sp.len() as int);
                }
            },
            Segment::Special(u) => {
                assert(u < t.patterns().len() && special_id_of(t.special_ids(), t.patterns()[u as int]) is Some);
                let i = lemma_special_id_found(t.special_ids(), t.patterns()[u as int]);
                let id = special_id_of(t.special_ids(), t.patterns()[u as int])->0;
                assert(dec.contains_key(t.special_ids()[i].1));
                lemma_decoded_one(dec, id);
            },
        }
        assert forall|i: int| 0 <= i < (before + here).len() implies dec.contains_key(#[trigger] (before + here)[i]) by {
            if i < before.len() {
                assert((before + here)[i] == before[i]);
            } else {
                assert((before + here)[i] == here[i - before.len()]);
                match seg {
                    Segment::Special(u) => {
                        let j = lemma_special_id_found(t.special_ids(), t.patterns()[u as int]);
                        assert(dec.contains_key(t.special_ids()[j].1));
                    },
                    _ => {},
                }
            }
        }
    }
}

/// Encoding a text and decoding the ids gives back the text's bytes, when the
/// tokenizer's tokens agree with its merges, bytes and special tokens, and the
/// pre-tokens of each range of ordinary text cover it; every id of the encoding
/// has a token.
pub proof fn law_encode_decode(t: Tokenizer, content: Seq<u8>, pretokens: Seq<Seq<Span>>)
    requires
        rules_agree(t.decoder_map(), t.encoder_map()),
        bytes_agree(t.decoder_map(), t.byte_map()),
        specials_agree(t.decoder_map(), t.special_ids()),
        content.len() <= usize::MAX,
        t.patterns().len() <= usize::MAX,
        pretokens.len() == t.segments_of(content).len(),
        t.pretokens_fit(content, pretokens),
        t.specials_known(t.segments_of(content)),
        pretokens_tile(t.segments_of(content), pretokens),
    ensures
        decoded_bytes(t.decoder_map(), t.encoded_parts(content, t.segments_of(content), pretokens, pretokens.len() as int))
            == content,
        ids_known(t.decoder_map(), t.encoded_parts(content, t.segments_of(content), pretokens, pretokens.len() as int)),
{
    let segs = t.segments_of(content);
    match t.special_patterns_view() {
        None => {
            assert(ranges_fit(segs, content.len() as int));
            assert(segs.drop_last() =~= Seq::<Segment>::empty());
            assert(parts_bytes(content, t.patterns(), Seq::<Segment>::empty()) == Seq::<u8>::empty());
            assert(Seq::<u8>::empty() + content.subrange(0, content.len() as int) =~= content);
            assert((content.len() as usize) as int == content.len());
        },
        Some(ps) => {
            assert(t.patterns() == ps);
            lemma_segments_fit(content, ps, 0, 0);
            lemma_segments_cover(content, ps, 0, 0);
            assert(content.subrange(0, content.len() as int) =~= content);
        },
    }
    lemma_decoded_parts(t, content, segs, pretokens, segs.len() as int);
    assert(segs.take(segs.len() as int) =~= segs);
}

/// The id found for some bytes is a token with those bytes.
pub proof fn lemma_id_below_found(dec: Map<u16, Seq<u8>>, b: Seq<u8>, n: int)
    requires
        id_below(dec, b, n) is Some,
    ensures
        dec.contains_key(id_below(dec, b, n)->0),
        dec[id_below(dec, b, n)->0] == b,
    decreases n,
{
    if !(dec.contains_key((n - 1) as u16) && dec[(n - 1) as u16] == b) {
        lemma_id_below_found(dec, b, n - 1);
    }
}

/// The merge rules of a merge list whose tokens the vocabulary has agree with it.
pub proof fn lemma_rules_agree(dec: Map<u16, Seq<u8>>, merges: Seq<(Seq<u8>, Seq<u8>)>)
    requires
        merges_known(dec, merges),
    ensures
        rules_agree(dec, merge_rules(dec, merges)),
    decreases merges.len(),
{
    if merges.len() > 0 {
        let init = merges.drop_last();
        assert forall|i: int| 0 <= i < init.len() implies {
            let m = #[trigger] init[i];
            &&& token_id(dec, m.0) is Some
            &&& token_id(dec, m.1) is Some
            &&& token_id(dec, m.0 + m.1) is Some
        } by {
            assert(init[i] == merges[i]);
        }
        lemma_rules_agree(dec, init);
        let m = merges.last();
        assert(merges[merges.len() - 1] == m);
        let ia = token_id(dec, m.0)->0;
        let ib = token_id(dec, m.1)->0;
        let ix = token_id(dec, m.0 + m.1)->0;
        lemma_id_below_found(dec, m.0, 65536);
        lemma_id_below_found(dec, m.1, 65536);
        lemma_id_below_found(dec, m.0 + m.1, 65536);
        lemma_pack_unpack(ia, ib);
    }
}

/// The token of each byte found among the first `n` single-byte tokens is that byte.
pub proof fn lemma_bytes_agree(dec: Map<u16, Seq<u8>>, n: int)
    requires
        0 <= n <= 256,
        byte_tokens(dec),
    ensures
        bytes_agree(dec, byte_rules(dec, n)),
    decreases n,
{
    if n > 0 {
        lemma_bytes_agree(dec, n - 1);
        let id = (n - 1) as u16;
        assert(dec.contains_key(id) && dec[id].len() == 1);
        assert(dec[id] =~= seq![dec[id][0]]);
    }
}

/// The special tokens of a course vocabulary agree with it.
pub proof fn lemma_course_specials_agree(dec: Map<u16, Seq<u8>>, st: Seq<String>)
    requires
        course_specials_ok(dec, st),
    ensures
        specials_agree(dec, course_special_ids(dec, st.len())),
{
    let ids = course_special_ids(dec, st.len());
    assert forall|i: int| 0 <= i < ids.len() implies dec.contains_key(#[trigger] ids[i].1) && dec[ids[i].1] == ids[i].0 by {
        let idx = dec.len() - st.len() + i;
        assert(dec.contains_key(idx as u16));
    }
}

} // verus!
