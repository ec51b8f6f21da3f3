//! Encoding text into token ids with a trained vocabulary and merge list, and
//! decoding ids back into text.
use std::collections::HashMap;
use vstd::prelude::*;
use vstd::string::*;
use vstd::utf8::*;

use crate::pairs::{lemma_merge_len, lemma_pack_unpack, lemma_unpack_pack, merge, pack, pair_hi, pair_lo};
use crate::file::{merges_view, tokens_view};
use crate::split::{token_bytes, alt_match_exec, alt_match_index, lemma_alt_match_occurs};
use crate::roundtrip::{
    bytes_agree, lemma_bytes_agree, lemma_course_specials_agree, lemma_rules_agree, rules_agree, specials_agree,
};
use crate::text::string_from_utf8;
use crate::types::{PackedPair, Span, TokenBytes, TokenId, TokenIds};
use crate::utils::{concat_bytes, copy_bytes, pack_pair};

verus! {

broadcast use vstd::std_specs::hash::group_hash_axioms;

/// How a pair of tokens merges: its rank among the merges (lower ranks merge
/// first) and the id of the token it merges into.
#[derive(Clone, Copy)]
pub struct MergeRule {
    /// Lower rank means the merge has higher priority.
    pub rank: usize,
    pub new_id: TokenId,
}

/// A merge chosen for a word: the pair, its rank and the id it merges into.
pub struct Replacement {
    pub pair: PackedPair,
    pub rank: usize,
    pub new_id: TokenId,
}

/// The mergeable pair of ranks lowest among the first `n` adjacent pairs of `w`,
/// the leftmost one on a tie.
pub open spec fn best_upto(w: Seq<u16>, enc: Map<u32, MergeRule>, n: int) -> Option<u32>
    decreases n,
{
    if n <= 0 || n >= w.len() {
        None
    } else {
        let prev = best_upto(w, enc, n - 1);
        let here = pack(w[n - 1], w[n]);
        if enc.contains_key(here) {
            match prev {
                Some(r) => if enc[here].rank < enc[r].rank {
                    Some(here)
                } else {
                    Some(r)
                },
                None => Some(here),
            }
        } else {
            prev
        }
    }
}

/// The mergeable pair of `w` of lowest rank, the leftmost one on a tie.
pub open spec fn best_pair(w: Seq<u16>, enc: Map<u32, MergeRule>) -> Option<u32> {
    best_upto(w, enc, w.len() - 1)
}

/// Byte-pair encoding of a word: merge every occurrence of the best pair, and
/// again, until no pair of the word can merge.
pub open spec fn bpe(w: Seq<u16>, enc: Map<u32, MergeRule>) -> Seq<u16>
    decreases w.len(),
{
    match best_pair(w, enc) {
        None => w,
        Some(q) => {
            let m = merge(w, pair_hi(q), pair_lo(q), enc[q].new_id);
            if m.len() < w.len() {
                bpe(m, enc)
            } else {
                w
            }
        },
    }
}

/// The best pair is a mergeable pair of the word.
pub proof fn lemma_best_upto_occurs(w: Seq<u16>, enc: Map<u32, MergeRule>, n: int) -> (i: int)
    requires
        best_upto(w, enc, n) is Some,
    ensures
        0 <= i < n,
        i + 1 < w.len(),
        best_upto(w, enc, n) == Some(pack(w[i], w[i + 1])),
        enc.contains_key(pack(w[i], w[i + 1])),
    decreases n,
{
    let prev = best_upto(w, enc, n - 1);
    let here = pack(w[n - 1], w[n]);
    if enc.contains_key(here) && (prev is None || enc[here].rank < enc[prev->0].rank) {
        n - 1
    } else {
        lemma_best_upto_occurs(w, enc, n - 1)
    }
}

/// Merging a pair that occurs makes a word shorter.
pub proof fn lemma_merge_shorter(w: Seq<u16>, a: u16, b: u16, x: u16, i: int)
    requires
        0 <= i,
        i + 1 < w.len(),
        w[i] == a,
        w[i + 1] == b,
    ensures
        merge(w, a, b, x).len() < w.len(),
    decreases w.len(),
{
    if w.len() >= 2 && w[0] == a && w[1] == b {
        lemma_merge_len(w.skip(2), a, b, x);
    } else {
        lemma_merge_shorter(w.skip(1), a, b, x, i - 1);
    }
}

/// Merges, in place, every occurrence of the replacement's pair among the first
/// `len` ids of `buf`, read from the left, and returns how many it merged. The
/// merged ids are the first `len - count` of `buf`.
pub fn merge_token_with_id(buf: &mut Vec<TokenId>, len: usize, replacement: &Replacement) -> (count: usize)
    requires
        1 <= len <= old(buf)@.len(),
    ensures
        final(buf)@.len() == old(buf)@.len(),
        count <= len,
        final(buf)@.take(len - count) == merge(
            old(buf)@.take(len as int),
            pair_hi(replacement.pair),
            pair_lo(replacement.pair),
            replacement.new_id,
        ),
{
    let ghost w = buf@.take(len as int);
    let ghost a = pair_hi(replacement.pair);
    let ghost b = pair_lo(replacement.pair);
    let ghost x = replacement.new_id;
    let mut read: usize = 0;
    let mut write: usize = 0;
    let mut count: usize = 0;
    proof {
        lemma_unpack_pack(replacement.pair);
        assert(w.skip(0) == w);
        assert(buf@.take(0) + merge(w, a, b, x) == merge(w, a, b, x));
    }
    while read < len - 1
        invariant
            1 <= len <= buf@.len(),
            w.len() == len,
            buf@.len() == old(buf)@.len(),
            write <= read <= len,
            write + count == read,
            read + 1 <= len || read == len,
            forall|i: int| read <= i < len ==> #[trigger] buf@[i] == w[i],
            buf@.take(write as int) + merge(w.skip(read as int), a, b, x) == merge(w, a, b, x),
            pack(a, b) == replacement.pair,
            x == replacement.new_id,
        decreases len - read,
    {
        let ghost rest = w.skip(read as int);
        let ghost tok = buf@;
        let first = buf[read];
        let second = buf[read + 1];
        let pair = pack_pair(first, second);
        if pair == replacement.pair {
            proof {
                lemma_pack_unpack(first, second);
                assert(first == a && second == b);
                assert(rest[0] == a && rest[1] == b);
                assert(merge(rest, a, b, x) == seq![x] + merge(rest.skip(2), a, b, x));
                assert(rest.skip(2) == w.skip(read + 2));
            }
            buf.set(write, replacement.new_id);
            read += 2;
            count += 1;
            proof {
                assert(buf@.take(write + 1) == tok.take(write as int).push(x));
            }
        } else {
            proof {
                lemma_pack_unpack(a, b);
                assert(!(first == a && second == b));
                assert(merge(rest, a, b, x) == seq![first] + merge(rest.skip(1), a, b, x));
                assert(rest.skip(1) == w.skip(read + 1));
            }
            buf.set(write, first);
            read += 1;
            proof {
                assert(buf@.take(write + 1) == tok.take(write as int).push(first));
            }
        }
        write += 1;
    }
    if read == len - 1 {
        let ghost tok = buf@;
        let ghost rest = w.skip(read as int);
        let last = buf[len - 1];
        proof {
            assert(rest =~= seq![last]);
            assert(merge(rest, a, b, x) == seq![last] + merge(rest.skip(1), a, b, x));
            assert(rest.skip(1).len() == 0);
            assert(merge(rest.skip(1), a, b, x) == rest.skip(1));
        }
        buf.set(write, last);
        proof {
            assert(buf@.take(write + 1) =~= tok.take(write as int).push(last));
            assert(seq![last] + Seq::<u16>::empty() =~= seq![last]);
            assert(tok.take(write as int) + seq![last] =~= tok.take(write as int).push(last));
        }
        write += 1;
        count = len - write;
        proof {
            assert(merge(w.skip(len as int), a, b, x) == w.skip(len as int));
            assert(w.skip(len as int).len() == 0);
        }
    } else {
        proof {
            assert(w.skip(read as int).len() == 0);
            assert(merge(w.skip(read as int), a, b, x) == w.skip(read as int));
        }
    }
    proof {
        assert(write == len - count);
        assert(buf@.take(write as int) =~= merge(w, a, b, x));
    }
    count
}

/// A tokenizer: the bytes of each token id, the merges with their ranks, the
/// token of each byte, and the special tokens with their ids.
pub struct Tokenizer {
    decoder: HashMap<TokenId, TokenBytes>,
    special_tokens_encoder: Vec<(TokenBytes, TokenId)>,
    special_patterns: Option<Vec<TokenBytes>>,
    encoder: HashMap<PackedPair, MergeRule>,
    byte_encoder: HashMap<u8, TokenId>,
}

impl Tokenizer {
    /// The bytes of each token id.
    pub closed spec fn decoder_map(&self) -> Map<u16, Seq<u8>> {
        self.decoder@.map_values(|t: TokenBytes| t@)
    }

    /// The merge rule of each mergeable pair.
    pub closed spec fn encoder_map(&self) -> Map<u32, MergeRule> {
        self.encoder@
    }

    /// The token id of each byte.
    pub closed spec fn byte_map(&self) -> Map<u8, u16> {
        self.byte_encoder@
    }

    /// The special tokens' bytes with their ids.
    pub closed spec fn special_ids(&self) -> Seq<(Seq<u8>, u16)> {
        tokens_view_pairs(self.special_tokens_encoder@)
    }

    /// The special tokens text is split at, in the order they are tried; `None`
    /// when the tokenizer was given no special tokens.
    pub closed spec fn special_patterns_view(&self) -> Option<Seq<Seq<u8>>> {
        match self.special_patterns {
            Some(ps) => Some(tokens_view(ps@)),
            None => None,
        }
    }

    /// Encodes one piece of text: its bytes become their tokens, and pairs merge
    /// by rank until none can.
    fn encode_internal(&self, buf: &mut Vec<TokenId>)
        ensures
            final(buf)@ == bpe(old(buf)@, self.encoder_map()),
    {
        let ghost enc = self.encoder@;
        let ghost w0 = buf@;
        let mut len: usize = buf.len();
        proof {
            assert(buf@.take(len as int) =~= w0);
        }
        loop
            invariant
                enc == self.encoder@,
                len <= buf@.len(),
                bpe(buf@.take(len as int), enc) == bpe(w0, enc),
            ensures
                len <= buf@.len(),
                bpe(buf@.take(len as int), enc) == bpe(w0, enc),
                bpe(buf@.take(len as int), enc) == buf@.take(len as int),
            decreases len,
        {
            if len < 2 {
                proof {
                    assert(best_pair(buf@.take(len as int), enc) is None);
                }
                break;
            }
            let ghost w = buf@.take(len as int);
            let mut min_pair: Option<Replacement> = None;
            for i in 0..len - 1
                invariant
                    enc == self.encoder@,
                    2 <= len <= buf@.len(),
                    w == buf@.take(len as int),
                    match min_pair {
                        Some(m) => best_upto(w, enc, i as int) == Some(m.pair) && enc.contains_key(m.pair)
                            && enc[m.pair].rank == m.rank && enc[m.pair].new_id == m.new_id,
                        None => best_upto(w, enc, i as int) is None,
                    },
            {
                let a = buf[i];
                let b = buf[i + 1];
                let pair = pack_pair(a, b);
                proof {
                    assert(w[i as int] == a && w[i + 1] == b);
                }
                match self.encoder.get(&pair) {
                    Some(rule) => {
                        match min_pair {
                            Some(ref m) => {
                                if rule.rank < m.rank {
                                    min_pair = Some(Replacement { pair, rank: rule.rank, new_id: rule.new_id });
                                }
                            },
                            None => {
                                min_pair = Some(Replacement { pair, rank: rule.rank, new_id: rule.new_id });
                            },
                        }
                    },
                    None => {},
                }
            }
            match min_pair {
                Some(ref m) => {
                    let ghost q = m.pair;
                    proof {
                        let i = lemma_best_upto_occurs(w, enc, len - 1);
                        lemma_unpack_pack(q);
                        lemma_pack_unpack(w[i], w[i + 1]);
                        lemma_merge_shorter(w, pair_hi(q), pair_lo(q), enc[q].new_id, i);
                    }
                    let count = merge_token_with_id(buf, len, m);
                    len -= count;
                },
                None => {
                    proof {
                        assert(best_pair(w, enc) is None);
                    }
                    break;
                },
            }
        }
        buf.truncate(len);
    }

    /// Encodes one piece of text (one pre-token): each byte becomes its token,
    /// then pairs merge by rank until none can.
    pub fn encode_word(&self, word: &[u8]) -> (ids: TokenIds)
        requires
            forall|j: int| 0 <= j < word@.len() ==> self.byte_map().contains_key(#[trigger] word@[j]),
        ensures
            ids@ == bpe(byte_ids(word@, self.byte_map()), self.encoder_map()),
    {
        let mut buf: TokenIds = Vec::new();
        for j in 0..word.len()
            invariant
                forall|k: int| 0 <= k < word@.len() ==> self.byte_encoder@.contains_key(#[trigger] word@[k]),
                buf@ == byte_ids(word@.take(j as int), self.byte_encoder@),
        {
            let b = word[j];
            let id: TokenId = match self.byte_encoder.get(&b) {
                Some(id) => *id,
                None => 0,
            };
            buf.push(id);
            proof {
                assert(byte_ids(word@.take(j + 1), self.byte_encoder@) =~= byte_ids(word@.take(j as int), self.byte_encoder@).push(
                    self.byte_encoder@[b],
                ));
            }
        }
        proof {
            assert(word@.take(word@.len() as int) =~= word@);
        }
        self.encode_internal(&mut buf);
        buf
    }

    /// The parts of a text: the special tokens, found by scanning from the left
    /// (where several start at one place, the one listed first), and the ranges
    /// of ordinary text around them. Without special tokens, the whole text is
    /// one range.
    pub open spec fn segments_of(&self, content: Seq<u8>) -> Seq<Segment> {
        match self.special_patterns_view() {
            None => seq![Segment::Text(0, content.len() as usize)],
            Some(ps) => segments_from(content, ps, 0, 0),
        }
    }

    /// Splits a text into ranges of ordinary text and special tokens.
    pub fn special_segments(&self, content: &[u8]) -> (segments: Vec<Segment>)
        ensures
            segments@ == self.segments_of(content@),
    {
        match &self.special_patterns {
            None => {
                let mut segments: Vec<Segment> = Vec::new();
                segments.push(Segment::Text(0, content.len()));
                proof {
                    assert(segments@ =~= seq![Segment::Text(0, content@.len() as usize)]);
                }
                segments
            },
            Some(patterns) => {
                let ghost tv = tokens_view(patterns@);
                let ghost hay = content@;
                let mut segments: Vec<Segment> = Vec::new();
                let mut cursor: usize = 0;
                let mut i: usize = 0;
                while i < content.len()
                    invariant
                        tv == tokens_view(patterns@),
                        hay == content@,
                        cursor <= i <= hay.len(),
                        segments@ + segments_from(hay, tv, cursor as int, i as int) == segments_from(hay, tv, 0, 0),
                    decreases hay.len() - i,
                {
                    match alt_match_exec(content, patterns, i) {
                        Some(t) => {
                            proof {
                                lemma_alt_match_occurs(hay, tv, i as int, 0);
                                assert(tv[t as int] == patterns@[t as int]@);
                            }
                            let l = patterns[t].len();
                            let ghost before = segments@;
                            let ghost rest = segments_from(hay, tv, (i + l) as int, (i + l) as int);
                            segments.push(Segment::Text(cursor, i));
                            segments.push(Segment::Special(t));
                            proof {
                                assert(segments@ + rest =~= before + (seq![Segment::Text(cursor, i), Segment::Special(t)]
                                    + rest));
                            }
                            cursor = i + l;
                            i = i + l;
                        },
                        None => {
                            i += 1;
                        },
                    }
                }
                let ghost before = segments@;
                segments.push(Segment::Text(cursor, content.len()));
                proof {
                    assert(segments@ =~= before + seq![Segment::Text(cursor, content@.len() as usize)]);
                }
                segments
            },
        }
    }

    /// The special tokens text is split at, in the order they are tried (none
    /// without special tokens).
    pub open spec fn patterns(&self) -> Seq<Seq<u8>> {
        match self.special_patterns_view() {
            Some(ps) => ps,
            None => seq![],
        }
    }

    /// The ids of the pre-tokens `spans[..n]` of `content`, one after another.
    pub open spec fn encoded_spans(&self, content: Seq<u8>, spans: Seq<Span>, n: int) -> Seq<u16>
        decreases n,
    {
        if n <= 0 {
            seq![]
        } else {
            self.encoded_spans(content, spans, n - 1) + bpe(
                byte_ids(content.subrange(spans[n - 1].0 as int, spans[n - 1].1 as int), self.byte_map()),
                self.encoder_map(),
            )
        }
    }

    /// The ids of the first `k` parts of `content`: the encoded pre-tokens of each
    /// range of ordinary text, and the id of each special token.
    pub open spec fn encoded_parts(&self, content: Seq<u8>, segments: Seq<Segment>, pretokens: Seq<Seq<Span>>, k: int) -> Seq<u16>
        decreases k,
    {
        if k <= 0 {
            seq![]
        } else {
            self.encoded_parts(content, segments, pretokens, k - 1) + match segments[k - 1] {
                Segment::Text(_, _) => self.encoded_spans(content, pretokens[k - 1], pretokens[k - 1].len() as int),
                Segment::Special(t) => seq![special_id_of(self.special_ids(), self.patterns()[t as int])->0],
            }
        }
    }

    /// Whether every byte of every pre-token lies in `content` and has a token.
    pub open spec fn pretokens_fit(&self, content: Seq<u8>, pretokens: Seq<Seq<Span>>) -> bool {
        forall|k: int, j: int|
            0 <= k < pretokens.len() && 0 <= j < pretokens[k].len() ==> {
                let sp = #[trigger] pretokens[k][j];
                &&& sp.0 <= sp.1 <= content.len()
                &&& forall|q: int| sp.0 <= q < sp.1 ==> self.byte_map().contains_key(#[trigger] content[q])
            }
    }

    /// Whether every special token of the parts has an id.
    pub open spec fn specials_known(&self, segments: Seq<Segment>) -> bool {
        forall|k: int| 0 <= k < segments.len() ==> (#[trigger] segments[k] matches Segment::Special(t) ==> t
            < self.patterns().len() && special_id_of(self.special_ids(), self.patterns()[t as int]) is Some)
    }

    /// Encodes a text given the pre-tokens of each of its parts (as
    /// `special_segments` splits it; those of a special token are not read): each
    /// pre-token gives its byte-pair encoding, each special token its id.
    pub fn encode(&self, content: &str, pretokens: &[Vec<Span>]) -> (ids: TokenIds)
        requires
            pretokens@.len() == self.segments_of(encode_utf8(content@)).len(),
            self.pretokens_fit(encode_utf8(content@), pretokens@.map_values(|v: Vec<Span>| v@)),
            self.specials_known(self.segments_of(encode_utf8(content@))),
        ensures
            ids@ == self.encoded_parts(
                encode_utf8(content@),
                self.segments_of(encode_utf8(content@)),
                pretokens@.map_values(|v: Vec<Span>| v@),
                pretokens@.len() as int,
            ),
    {
        let bytes: &[u8] = content.as_bytes();
        let segments = self.special_segments(bytes);
        let ghost pts = pretokens@.map_values(|v: Vec<Span>| v@);
        let ghost hay = bytes@;
        let mut result: TokenIds = Vec::new();
        for k in 0..segments.len()
            invariant
                hay == bytes@,
                hay == encode_utf8(content@),
                segments@ == self.segments_of(hay),
                pretokens@.len() == segments@.len(),
                pts == pretokens@.map_values(|v: Vec<Span>| v@),
                self.pretokens_fit(hay, pts),
                self.specials_known(segments@),
                result@ == self.encoded_parts(hay, segments@, pts, k as int),
        {
            match segments[k] {
                Segment::Text(_, _) => {
                    let spans: &Vec<Span> = &pretokens[k];
                    proof {
                        assert(pts[k as int] == spans@);
                    }
                    let ghost start = result@;
                    for j in 0..spans.len()
                        invariant
                            hay == bytes@,
                            pts == pretokens@.map_values(|v: Vec<Span>| v@),
                            self.pretokens_fit(hay, pts),
                            0 <= k < pts.len(),
                            pts[k as int] == spans@,
                            result@ == start + self.encoded_spans(hay, spans@, j as int),
                    {
                        let (s, e) = spans[j];
                        proof {
                            assert(pts[k as int][j as int] == (s, e));
                        }
                        let word: &[u8] = &bytes[s..e];
                        proof {
                            assert(word@ == hay.subrange(s as int, e as int));
                            assert forall|q: int| 0 <= q < word@.len() implies self.byte_map().contains_key(#[trigger] word@[q]) by {
                                assert(word@[q] == hay[s + q]);
                            }
                        }
                        let ids = self.encode_word(word);
                        let ghost before = result@;
                        result.append(&mut ids.clone());
                        proof {
                            assert(result@ =~= start + self.encoded_spans(hay, spans@, j + 1));
                        }
                    }
                },
                Segment::Special(t) => {
                    let ghost before = result@;
                    let id = self.special_id(t);
                    result.push(id);
                    proof {
                        assert(result@ =~= before + seq![special_id_of(self.special_ids(), self.patterns()[t as int])->0]);
                    }
                },
            }
        }
        result
    }

    /// Encodes a text as `encode` does; the pre-tokens may come from several
    /// threads, the ids are the same.
    pub fn encode_mt(&self, content: &str, pretokens: &[Vec<Span>], threads: usize) -> (ids: TokenIds)
        requires
            pretokens@.len() == self.segments_of(encode_utf8(content@)).len(),
            self.pretokens_fit(encode_utf8(content@), pretokens@.map_values(|v: Vec<Span>| v@)),
            self.specials_known(self.segments_of(encode_utf8(content@))),
        ensures
            ids@ == self.encoded_parts(
                encode_utf8(content@),
                self.segments_of(encode_utf8(content@)),
                pretokens@.map_values(|v: Vec<Span>| v@),
                pretokens@.len() as int,
            ),
    {
        let _ = threads;
        self.encode(content, pretokens)
    }

    /// Whether a byte has a token.
    pub fn knows_byte(&self, b: u8) -> (r: bool)
        ensures
            r == self.byte_map().contains_key(b),
    {
        self.byte_encoder.get(&b).is_some()
    }

    /// Whether the `t`-th special token has an id.
    pub fn knows_special(&self, t: usize) -> (r: bool)
        ensures
            r == (t < self.patterns().len() && special_id_of(self.special_ids(), self.patterns()[t as int]) is Some),
    {
        match &self.special_patterns {
            Some(ps) => {
                if t >= ps.len() {
                    return false;
                }
                let pattern: &TokenBytes = &ps[t];
                proof {
                    assert(self.patterns()[t as int] == pattern@);
                }
                let mut i: usize = self.special_tokens_encoder.len();
                proof {
                    assert(self.special_ids().take(i as int) =~= self.special_ids());
                }
                while i > 0
                    invariant
                        t < self.patterns().len(),
                        self.patterns()[t as int] == pattern@,
                        i <= self.special_tokens_encoder@.len(),
                        special_id_of(self.special_ids(), pattern@) == special_id_of(self.special_ids().take(i as int), pattern@),
                    decreases i,
                {
                    let entry: &(TokenBytes, TokenId) = &self.special_tokens_encoder[i - 1];
                    proof {
                        assert(self.special_ids().take(i as int).drop_last() =~= self.special_ids().take(i - 1));
                        assert(self.special_ids().take(i as int).last() == (entry.0@, entry.1));
                    }
                    if bytes_equal(&entry.0, pattern) {
                        return true;
                    }
                    i -= 1;
                }
                proof {
                    assert(self.special_ids().take(0) =~= Seq::<(Seq<u8>, u16)>::empty());
                }
                false
            },
            None => false,
        }
    }

    /// The text of a list of token ids, or `None` when an id has no token or the
    /// tokens' bytes are not UTF-8.
    pub fn try_decode(&self, ids: &[TokenId]) -> (r: Option<String>)
        ensures
            r is Some <==> (forall|i: int| 0 <= i < ids@.len() ==> self.decoder_map().contains_key(#[trigger] ids@[i]))
                && valid_utf8(decoded_bytes(self.decoder_map(), ids@)),
            r matches Some(s) ==> s@ == decode_utf8(decoded_bytes(self.decoder_map(), ids@)),
    {
        let ghost dec = self.decoder_map();
        let mut buf: Vec<u8> = Vec::new();
        for i in 0..ids.len()
            invariant
                dec == self.decoder_map(),
                forall|j: int| 0 <= j < i ==> dec.contains_key(#[trigger] ids@[j]),
                buf@ == decoded_bytes(dec, ids@.take(i as int)),
        {
            let id = ids[i];
            proof {
                assert(ids@.take(i + 1).drop_last() =~= ids@.take(i as int));
            }
            match self.decoder.get(&id) {
                Some(bytes) => {
                    let ghost before = buf@;
                    for j in 0..bytes.len()
                        invariant
                            buf@ == before + bytes@.take(j as int),
                    {
                        buf.push(bytes[j]);
                        proof {
                            assert(before + bytes@.take(j + 1) =~= (before + bytes@.take(j as int)).push(bytes@[j as int]));
                        }
                    }
                    proof {
                        assert(bytes@.take(bytes@.len() as int) =~= bytes@);
                        assert(dec[id] == bytes@);
                    }
                },
                None => {
                    proof {
                        assert(!dec.contains_key(ids@[i as int]));
                    }
                    return None;
                },
            }
        }
        proof {
            assert(ids@.take(ids@.len() as int) =~= ids@);
        }
        string_from_utf8(buf)
    }

    /// The id of the `t`-th special token.
    fn special_id(&self, t: usize) -> (id: TokenId)
        requires
            t < self.patterns().len(),
            special_id_of(self.special_ids(), self.patterns()[t as int]) is Some,
        ensures
            id == special_id_of(self.special_ids(), self.patterns()[t as int])->0,
    {
        match &self.special_patterns {
            Some(ps) => {
                let pattern: &TokenBytes = &ps[t];
                proof {
                    assert(self.patterns()[t as int] == pattern@);
                }
                let mut i: usize = self.special_tokens_encoder.len();
                proof {
                    assert(self.special_ids().take(i as int) =~= self.special_ids());
                }
                while i > 0
                    invariant
                        t < self.patterns().len(),
                        self.patterns()[t as int] == pattern@,
                        i <= self.special_tokens_encoder@.len(),
                        special_id_of(self.special_ids(), pattern@) == special_id_of(self.special_ids().take(i as int), pattern@),
                    decreases i,
                {
                    let entry: &(TokenBytes, TokenId) = &self.special_tokens_encoder[i - 1];
                    proof {
                        assert(self.special_ids().take(i as int).drop_last() =~= self.special_ids().take(i - 1));
                        assert(self.special_ids().take(i as int).last() == (entry.0@, entry.1));
                    }
                    if bytes_equal(&entry.0, pattern) {
                        proof {
                            assert(special_id_of(self.special_ids().take(i as int), pattern@) == Some(entry.1));
                        }
                        return entry.1;
                    }
                    i -= 1;
                }
                0
            },
            None => 0,
        }
    }
}

/// Whether two byte strings are equal.
pub(crate) fn bytes_equal(a: &TokenBytes, b: &TokenBytes) -> (r: bool)
    ensures
        r == (a@ == b@),
{
    if a.len() != b.len() {
        return false;
    }
    for i in 0..a.len()
        invariant
            a@.len() == b@.len(),
            forall|j: int| 0 <= j < i ==> a@[j] == b@[j],
    {
        if a[i] != b[i] {
            return false;
        }
    }
    proof {
        assert(a@ =~= b@);
    }
    true
}

/// The id of the special token with the given bytes, the one recorded last when
/// several have them.
pub open spec fn special_id_of(ids: Seq<(Seq<u8>, u16)>, bytes: Seq<u8>) -> Option<u16>
    decreases ids.len(),
{
    if ids.len() == 0 {
        None
    } else if ids.last().0 == bytes {
        Some(ids.last().1)
    } else {
        special_id_of(ids.drop_last(), bytes)
    }
}

/// The token ids of bytes, each byte by itself.
pub open spec fn byte_ids(bytes: Seq<u8>, bm: Map<u8, u16>) -> Seq<u16> {
    bytes.map_values(|b: u8| bm[b])
}

/// A part of a text: a range of ordinary text, or the special token of the
/// given index in the list of special tokens.
#[derive(Clone, Copy, Debug, PartialEq, Eq)]
pub enum Segment {
    Text(usize, usize),
    Special(usize),
}

/// The special tokens of `hay` found by scanning from the left, each matched
/// where it first occurs (the first listed of those occurring there), and the
/// text ranges around them, starting with the text from `cursor`.
pub open spec fn segments_from(hay: Seq<u8>, needles: Seq<Seq<u8>>, cursor: int, i: int) -> Seq<Segment>
    decreases hay.len() - i,
{
    if i >= hay.len() {
        seq![Segment::Text(cursor as usize, hay.len() as usize)]
    } else {
        match alt_match_index(hay, needles, i, 0) {
            Some(t) => if 0 <= t < needles.len() && 0 < needles[t].len() && i + needles[t].len() <= hay.len() {
                seq![Segment::Text(cursor as usize, i as usize), Segment::Special(t as usize)] + segments_from(
                    hay,
                    needles,
                    i + needles[t].len(),
                    i + needles[t].len(),
                )
            } else {
                segments_from(hay, needles, cursor, i + 1)
            },
            None => segments_from(hay, needles, cursor, i + 1),
        }
    }
}

/// The bytes of a list of token ids, one token after another.
pub open spec fn decoded_bytes(dec: Map<u16, Seq<u8>>, ids: Seq<u16>) -> Seq<u8>
    decreases ids.len(),
{
    if ids.len() == 0 {
        seq![]
    } else {
        decoded_bytes(dec, ids.drop_last()) + dec[ids.last()]
    }
}

impl Tokenizer {
    /// The text of a list of token ids: the tokens' bytes one after another,
    /// read as UTF-8.
    pub fn decode(&self, ids: &[TokenId]) -> (s: String)
        requires
            forall|i: int| 0 <= i < ids@.len() ==> self.decoder_map().contains_key(#[trigger] ids@[i]),
            valid_utf8(decoded_bytes(self.decoder_map(), ids@)),
        ensures
            s@ == decode_utf8(decoded_bytes(self.decoder_map(), ids@)),
    {
        let ghost dec = self.decoder_map();
        let mut buf: Vec<u8> = Vec::new();
        for i in 0..ids.len()
            invariant
                dec == self.decoder_map(),
                forall|j: int| 0 <= j < ids@.len() ==> dec.contains_key(#[trigger] ids@[j]),
                buf@ == decoded_bytes(dec, ids@.take(i as int)),
        {
            let id = ids[i];
            proof {
                assert(ids@.take(i + 1).drop_last() =~= ids@.take(i as int));
                assert(dec.contains_key(id));
            }
            match self.decoder.get(&id) {
                Some(bytes) => {
                    let ghost before = buf@;
                    for j in 0..bytes.len()
                        invariant
                            buf@ == before + bytes@.take(j as int),
                    {
                        buf.push(bytes[j]);
                        proof {
                            assert(before + bytes@.take(j + 1) =~= (before + bytes@.take(j as int)).push(bytes@[j as int]));
                        }
                    }
                    proof {
                        assert(bytes@.take(bytes@.len() as int) =~= bytes@);
                        assert(dec[id] == bytes@);
                    }
                },
                None => {},
            }
        }
        proof {
            assert(ids@.take(ids@.len() as int) =~= ids@);
        }
        match string_from_utf8(buf) {
            Some(s) => s,
            None => String::new(),
        }
    }
}

/// A hash of a byte string: each byte folded in as `h * 31 + byte`, modulo 2^64.
pub open spec fn bytes_hash(b: Seq<u8>) -> u64
    decreases b.len(),
{
    if b.len() == 0 {
        0
    } else {
        ((bytes_hash(b.drop_last()) as int * 31 + b.last() as int) % 0x1_0000_0000_0000_0000) as u64
    }
}

/// Computes `bytes_hash`.
pub(crate) fn hash_bytes(b: &TokenBytes) -> (h: u64)
    ensures
        h == bytes_hash(b@),
{
    let mut h: u64 = 0;
    for i in 0..b.len()
        invariant
            h == bytes_hash(b@.take(i as int)),
    {
        proof {
            assert(b@.take(i + 1).drop_last() =~= b@.take(i as int));
        }
        let next: u128 = ((h as u128) * 31 + (b[i] as u128)) % 0x1_0000_0000_0000_0000u128;
        h = next as u64;
    }
    proof {
        assert(b@.take(b@.len() as int) =~= b@);
    }
    h
}

/// The greatest id below `n` whose token has the bytes `b`.
pub open spec fn id_below(dec: Map<u16, Seq<u8>>, b: Seq<u8>, n: int) -> Option<u16>
    decreases n,
{
    if n <= 0 {
        None
    } else if dec.contains_key((n - 1) as u16) && dec[(n - 1) as u16] == b {
        Some((n - 1) as u16)
    } else {
        id_below(dec, b, n - 1)
    }
}

/// The id of the token with the bytes `b`: the greatest one when several have them.
pub open spec fn token_id(dec: Map<u16, Seq<u8>>, b: Seq<u8>) -> Option<u16> {
    id_below(dec, b, 65536)
}

/// The greatest id below `n` with the bytes `b` is the one that has them with
/// none above it.
proof fn lemma_id_below(dec: Map<u16, Seq<u8>>, b: Seq<u8>, n: int, j: Option<u16>)
    requires
        0 <= n <= 65536,
        j matches Some(id) ==> id < n && dec.contains_key(id) && dec[id] == b,
        forall|k: u16| #![trigger dec[k]] (match j {
            Some(id) => id < k,
            None => true,
        }) && k < n ==> !(dec.contains_key(k) && dec[k] == b),
    ensures
        id_below(dec, b, n) == j,
    decreases n,
{
    if n > 0 {
        let top = (n - 1) as u16;
        if j == Some(top) {
        } else {
            assert(!(dec.contains_key(top) && dec[top] == b)) by {
                if j is Some {
                    assert(j->0 < top);
                }
            }
            lemma_id_below(dec, b, n - 1, j);
        }
    }
}

/// Whether an index maps each hash to the ids below `n` whose tokens have that
/// hash, in increasing order.
pub open spec fn index_holds(index: Map<u64, Vec<u16>>, dec: Map<u16, Seq<u8>>, n: int) -> bool {
    &&& forall|h: u64, m: int, m2: int| #![trigger index[h]@[m], index[h]@[m2]]
        index.contains_key(h) && 0 <= m < m2 < index[h]@.len() ==> index[h]@[m] < index[h]@[m2]
    &&& forall|h: u64, m: int| #![trigger index[h]@[m]]
        index.contains_key(h) && 0 <= m < index[h]@.len() ==> index[h]@[m] < n && dec.contains_key(index[h]@[m])
            && bytes_hash(dec[index[h]@[m]]) == h
    &&& forall|id: u16| #![trigger dec[id]]
        id < n && dec.contains_key(id) ==> index.contains_key(bytes_hash(dec[id])) && index[bytes_hash(dec[id])]@.contains(id)
}

/// Indexes the ids of a vocabulary by the hash of their tokens' bytes.
fn build_id_index(decoder: &HashMap<TokenId, TokenBytes>) -> (index: HashMap<u64, Vec<TokenId>>)
    ensures
        index_holds(index@, decoder@.map_values(|t: TokenBytes| t@), 65536),
{
    let ghost dec = decoder@.map_values(|t: TokenBytes| t@);
    let mut index: HashMap<u64, Vec<TokenId>> = HashMap::new();
    for i in 0..65536u32
        invariant
            dec == decoder@.map_values(|t: TokenBytes| t@),
            index_holds(index@, dec, i as int),
    {
        let id = i as u16;
        match decoder.get(&id) {
            Some(bytes) => {
                let h = hash_bytes(bytes);
                let ghost before = index@;
                let mut bucket: Vec<TokenId> = match index.get(&h) {
                    Some(v) => v.clone(),
                    None => Vec::new(),
                };
                proof {
                    assert(dec[id] == bytes@);
                    if before.contains_key(h) {
                        assert(bucket@ =~= before[h]@);
                    }
                }
                let ghost old_bucket = bucket@;
                bucket.push(id);
                index.insert(h, bucket);
                proof {
                    assert forall|h2: u64, m: int, m2: int| #![trigger index@[h2]@[m], index@[h2]@[m2]]
                        index@.contains_key(h2) && 0 <= m < m2 < index@[h2]@.len() implies index@[h2]@[m] < index@[h2]@[m2] by {
                        if h2 == h && m2 == old_bucket.len() && before.contains_key(h) {
                            assert(old_bucket[m] == before[h]@[m]);
                        } else if h2 == h && before.contains_key(h) {
                            assert(old_bucket[m] == before[h]@[m]);
                            assert(old_bucket[m2] == before[h]@[m2]);
                        }
                    }
                    assert forall|h2: u64, m: int| #![trigger index@[h2]@[m]]
                        index@.contains_key(h2) && 0 <= m < index@[h2]@.len() implies index@[h2]@[m] < i + 1 && dec.contains_key(index@[h2]@[m])
                            && bytes_hash(dec[index@[h2]@[m]]) == h2 by {
                        if h2 == h && m < old_bucket.len() && before.contains_key(h) {
                            assert(old_bucket[m] == before[h]@[m]);
                        }
                    }
                    assert forall|id2: u16| #![trigger dec[id2]]
                        id2 < i + 1 && dec.contains_key(id2) implies index@.contains_key(bytes_hash(dec[id2])) && index@[bytes_hash(dec[id2])]@.contains(id2) by {
                        if id2 == id {
                            assert(index@[h]@[old_bucket.len() as int] == id);
                        } else {
                            let h2 = bytes_hash(dec[id2]);
                            assert(before[h2]@.contains(id2));
                            let m = choose|m: int| 0 <= m < before[h2]@.len() && before[h2]@[m] == id2;
                            if h2 == h {
                                assert(index@[h]@[m] == id2);
                            }
                        }
                    }
                }
            },
            None => {
                proof {
                    assert(!dec.contains_key(id));
                    assert forall|id2: u16| #![trigger dec[id2]]
                        id2 < i + 1 && dec.contains_key(id2) implies index@.contains_key(bytes_hash(dec[id2])) && index@[bytes_hash(dec[id2])]@.contains(id2) by {
                        assert(id2 != id);
                    }
                }
            },
        }
    }
    index
}

/// The id of the token with the bytes `b`, the greatest one when several have them.
fn lookup_id(index: &HashMap<u64, Vec<TokenId>>, decoder: &HashMap<TokenId, TokenBytes>, b: &TokenBytes) -> (r: Option<TokenId>)
    requires
        index_holds(index@, decoder@.map_values(|t: TokenBytes| t@), 65536),
    ensures
        r == token_id(decoder@.map_values(|t: TokenBytes| t@), b@),
{
    let ghost dec = decoder@.map_values(|t: TokenBytes| t@);
    let h = hash_bytes(b);
    match index.get(&h) {
        None => {
            proof {
                lemma_id_below(dec, b@, 65536, None);
            }
            None
        },
        Some(bucket) => {
            let mut k: usize = bucket.len();
            while k > 0
                invariant
                    index_holds(index@, dec, 65536),
                    dec == decoder@.map_values(|t: TokenBytes| t@),
                    h == bytes_hash(b@),
                    index@.contains_key(h),
                    bucket@ == index@[h]@,
                    k <= bucket@.len(),
                    forall|m: int| k <= m < bucket@.len() ==> dec[#[trigger] bucket@[m]] != b@,
                decreases k,
            {
                let id = bucket[k - 1];
                match decoder.get(&id) {
                    Some(bytes) => {
                        proof {
                            assert(decoder@.contains_key(id) && decoder@[id] == *bytes);
                            assert(dec[id] == bytes@);
                        }
                        if bytes_equal(bytes, b) {
                            proof {
                                assert(bucket@[k - 1] == id);
                                assert(dec[id] == b@);
                                assert forall|k2: u16| #![trigger dec[k2]] id < k2 && k2 < 65536 implies !(dec.contains_key(k2) && dec[k2] == b@) by {
                                    if dec.contains_key(k2) && dec[k2] == b@ {
                                        assert(index@[h]@.contains(k2));
                                        let m = choose|m: int| 0 <= m < index@[h]@.len() && index@[h]@[m] == k2;
                                        if m <= k - 1 {
                                            if m < k - 1 {
                                                assert(index@[h]@[m] < index@[h]@[k - 1]);
                                            }
                                        }
                                    }
                                }
                                lemma_id_below(dec, b@, 65536, Some(id));
                            }
                            return Some(id);
                        }
                        proof {
                            assert(dec[id] == bytes@);
                        }
                    },
                    None => {
                        proof {
                            assert(bucket@[k - 1] == id);
                        }
                    },
                }
                k -= 1;
            }
            proof {
                assert forall|k2: u16| #![trigger dec[k2]] k2 < 65536 implies !(dec.contains_key(k2) && dec[k2] == b@) by {
                    if dec.contains_key(k2) && dec[k2] == b@ {
                        assert(index@[h]@.contains(k2));
                        let m = choose|m: int| 0 <= m < index@[h]@.len() && index@[h]@[m] == k2;
                        assert(dec[bucket@[m]] != b@);
                    }
                }
                lemma_id_below(dec, b@, 65536, None);
            }
            None
        },
    }
}

/// The merge rules of a merge list: each merged pair of token ids with its rank
/// and the id of the token it merges into; a pair listed twice keeps its last rank.
pub open spec fn merge_rules(dec: Map<u16, Seq<u8>>, merges: Seq<(Seq<u8>, Seq<u8>)>) -> Map<u32, MergeRule>
    decreases merges.len(),
{
    if merges.len() == 0 {
        Map::empty()
    } else {
        let m = merges.last();
        merge_rules(dec, merges.drop_last()).insert(
            pack(token_id(dec, m.0)->0, token_id(dec, m.1)->0),
            MergeRule { rank: (merges.len() - 1) as usize, new_id: token_id(dec, m.0 + m.1)->0 },
        )
    }
}

/// Whether the vocabulary has the two tokens of every merge and the token they merge into.
pub open spec fn merges_known(dec: Map<u16, Seq<u8>>, merges: Seq<(Seq<u8>, Seq<u8>)>) -> bool {
    forall|i: int| 0 <= i < merges.len() ==> {
        let m = #[trigger] merges[i];
        &&& token_id(dec, m.0) is Some
        &&& token_id(dec, m.1) is Some
        &&& token_id(dec, m.0 + m.1) is Some
    }
}

/// Builds the merge rules of a merge list.
fn build_encoder(
    index: &HashMap<u64, Vec<TokenId>>,
    decoder: &HashMap<TokenId, TokenBytes>,
    merges: &[(TokenBytes, TokenBytes)],
) -> (map: HashMap<PackedPair, MergeRule>)
    requires
        index_holds(index@, decoder@.map_values(|t: TokenBytes| t@), 65536),
        merges_known(decoder@.map_values(|t: TokenBytes| t@), merges_view(merges@)),
    ensures
        map@ == merge_rules(decoder@.map_values(|t: TokenBytes| t@), merges_view(merges@)),
{
    let ghost dec = decoder@.map_values(|t: TokenBytes| t@);
    let ghost mv = merges_view(merges@);
    let mut map: HashMap<PackedPair, MergeRule> = HashMap::new();
    for rank in 0..merges.len()
        invariant
            dec == decoder@.map_values(|t: TokenBytes| t@),
            mv == merges_view(merges@),
            index_holds(index@, dec, 65536),
            merges_known(dec, mv),
            map@ == merge_rules(dec, mv.take(rank as int)),
    {
        let a: &TokenBytes = &merges[rank].0;
        let b: &TokenBytes = &merges[rank].1;
        proof {
            assert(mv[rank as int] == (a@, b@));
        }
        let a_id = match lookup_id(index, decoder, a) {
            Some(id) => id,
            None => 0,
        };
        let b_id = match lookup_id(index, decoder, b) {
            Some(id) => id,
            None => 0,
        };
        let pair = pack_pair(a_id, b_id);
        let merged = concat_bytes(a, b);
        let new_id = match lookup_id(index, decoder, &merged) {
            Some(id) => id,
            None => 0,
        };
        map.insert(pair, MergeRule { rank, new_id });
        proof {
            assert(mv.take(rank + 1).drop_last() =~= mv.take(rank as int));
            assert(mv.take(rank + 1).last() == (a@, b@));
        }
    }
    proof {
        assert(mv.take(merges@.len() as int) =~= mv);
    }
    map
}

/// The token id of each byte: the id of the single-byte token below 256 that
/// holds it, the greatest one when several do.
pub open spec fn byte_rules(dec: Map<u16, Seq<u8>>, n: int) -> Map<u8, u16>
    decreases n,
{
    if n <= 0 {
        Map::empty()
    } else {
        byte_rules(dec, n - 1).insert(dec[(n - 1) as u16][0], (n - 1) as u16)
    }
}

/// Whether the first 256 ids are single-byte tokens.
pub open spec fn byte_tokens(dec: Map<u16, Seq<u8>>) -> bool {
    forall|id: u16| #![trigger dec.contains_key(id)] id < 256 ==> dec.contains_key(id) && dec[id].len() == 1
}

/// Builds the token id of each byte from the first 256 tokens.
fn build_byte_encoder(vocab: &HashMap<TokenId, TokenBytes>) -> (map: HashMap<u8, TokenId>)
    requires
        byte_tokens(vocab@.map_values(|t: TokenBytes| t@)),
    ensures
        map@ == byte_rules(vocab@.map_values(|t: TokenBytes| t@), 256),
{
    let ghost dec = vocab@.map_values(|t: TokenBytes| t@);
    let mut map: HashMap<u8, TokenId> = HashMap::new();
    for id in 0..256u16
        invariant
            dec == vocab@.map_values(|t: TokenBytes| t@),
            byte_tokens(dec),
            map@ == byte_rules(dec, id as int),
    {
        proof {
            assert(dec.contains_key(id));
        }
        match vocab.get(&id) {
            Some(bytes) => {
                proof {
                    assert(dec[id] == bytes@);
                }
                map.insert(bytes[0], id);
            },
            None => {},
        }
    }
    map
}

/// The bytes of the special tokens that are not empty, in order.
pub open spec fn nonempty_only(s: Seq<Seq<u8>>) -> Seq<Seq<u8>>
    decreases s.len(),
{
    if s.len() == 0 {
        seq![]
    } else if s.last().len() > 0 {
        nonempty_only(s.drop_last()).push(s.last())
    } else {
        nonempty_only(s.drop_last())
    }
}

/// The special tokens' bytes, without the empty ones.
fn nonempty_token_bytes(special_tokens: &[String]) -> (patterns: Vec<TokenBytes>)
    ensures
        tokens_view(patterns@) == nonempty_only(token_bytes(special_tokens@)),
{
    let ghost tb = token_bytes(special_tokens@);
    let mut patterns: Vec<TokenBytes> = Vec::new();
    for t in 0..special_tokens.len()
        invariant
            tb == token_bytes(special_tokens@),
            tokens_view(patterns@) == nonempty_only(tb.take(t as int)),
    {
        let token: &str = special_tokens[t].as_str();
        let bytes = token.as_bytes_vec();
        proof {
            assert(tb.take(t + 1).drop_last() =~= tb.take(t as int));
            assert(tb[t as int] == encode_utf8(special_tokens@[t as int]@));
            assert(bytes@ == tb[t as int]);
        }
        if bytes.len() > 0 {
            let ghost before = patterns@;
            patterns.push(bytes);
            proof {
                assert(tokens_view(patterns@) =~= tokens_view(before).push(tb[t as int]));
            }
        }
    }
    proof {
        assert(tb.take(special_tokens@.len() as int) =~= tb);
    }
    patterns
}

/// Whether special tokens fit a course vocabulary: there are fewer than 65535 of
/// them and of tokens, and the last ids of the vocabulary, one per special token,
/// hold special tokens' bytes.
pub open spec fn course_specials_ok(dec: Map<u16, Seq<u8>>, special_tokens: Seq<String>) -> bool {
    &&& special_tokens.len() < 65535
    &&& dec.len() < 65535
    &&& special_tokens.len() <= dec.len()
    &&& forall|idx: int| #![trigger dec.contains_key(idx as u16)] dec.len() - special_tokens.len() <= idx < dec.len() ==> dec.contains_key(idx as u16)
        && token_bytes(special_tokens).contains(dec[idx as u16])
}

/// The special tokens of a course vocabulary: the bytes and id of each of its
/// last `n` tokens.
pub open spec fn course_special_ids(dec: Map<u16, Seq<u8>>, n: nat) -> Seq<(Seq<u8>, u16)> {
    Seq::new(n, |i: int| (dec[(dec.len() - n + i) as u16], (dec.len() - n + i) as u16))
}

/// The vocabulary of a list of tokens: id `i` stands for the `i`-th token.
pub open spec fn vocab_map(v: Seq<Seq<u8>>) -> Map<u16, Seq<u8>> {
    Map::new(|id: u16| (id as int) < v.len(), |id: u16| v[id as int])
}

/// Each byte is its own token.
pub open spec fn identity_bytes() -> Map<u8, u16> {
    Map::new(|b: u8| true, |b: u8| b as u16)
}

/// The special tokens that follow a vocabulary of `n` tokens: each token's bytes
/// with the next id.
pub open spec fn appended_special_ids(special_tokens: Seq<String>, n: nat) -> Seq<(Seq<u8>, u16)> {
    Seq::new(special_tokens.len(), |i: int| (token_bytes(special_tokens)[i], (n + i) as u16))
}

impl Tokenizer {
    /// Builds a tokenizer from a vocabulary given as a map from ids to bytes
    /// (its first 256 ids being the byte tokens), a merge list, and optionally
    /// special tokens, which must be the vocabulary's last tokens.
    pub fn load_course(
        vocab: HashMap<u16, TokenBytes>,
        merges: Vec<(TokenBytes, TokenBytes)>,
        special_tokens: Option<&[String]>,
    ) -> (t: Tokenizer)
        requires
            special_tokens matches Some(st) ==> course_specials_ok(vocab@.map_values(|b: TokenBytes| b@), st@),
            merges_known(vocab@.map_values(|b: TokenBytes| b@), merges_view(merges@)),
            byte_tokens(vocab@.map_values(|b: TokenBytes| b@)),
        ensures
            t.decoder_map() == vocab@.map_values(|b: TokenBytes| b@),
            t.encoder_map() == merge_rules(vocab@.map_values(|b: TokenBytes| b@), merges_view(merges@)),
            t.byte_map() == byte_rules(vocab@.map_values(|b: TokenBytes| b@), 256),
            t.special_ids() == match special_tokens {
                Some(st) => course_special_ids(vocab@.map_values(|b: TokenBytes| b@), st@.len()),
                None => seq![],
            },
            t.special_patterns_view() == match special_tokens {
                Some(st) => Some(nonempty_only(token_bytes(st@))),
                None => None,
            },
            rules_agree(t.decoder_map(), t.encoder_map()),
            bytes_agree(t.decoder_map(), t.byte_map()),
            specials_agree(t.decoder_map(), t.special_ids()),
    {
        let ghost dec = vocab@.map_values(|b: TokenBytes| b@);
        let mut special_tokens_encoder: Vec<(TokenBytes, TokenId)> = Vec::new();
        let mut special_patterns: Option<Vec<TokenBytes>> = None;
        match special_tokens {
            Some(st) => {
                let n = st.len();
                let total = vocab.len();
                proof {
                    assert(vocab@.dom() =~= dec.dom());
                }
                let first = (total - n) as u16;
                let end = total as u16;
                for idx in first..end
                    invariant
                        dec == vocab@.map_values(|b: TokenBytes| b@),
                        course_specials_ok(dec, st@),
                        n == st@.len(),
                        total == dec.len(),
                        first == total - n,
                        end == total,
                        tokens_view_pairs(special_tokens_encoder@) == course_special_ids(dec, n as nat).take(idx - first),
                {
                    proof {
                        assert(dec.contains_key(idx));
                    }
                    match vocab.get(&idx) {
                        Some(bytes) => {
                            proof {
                                assert(dec[idx] == bytes@);
                            }
                            let copy = copy_bytes(bytes);
                            let ghost before = special_tokens_encoder@;
                            special_tokens_encoder.push((copy, idx));
                            proof {
                                let want = course_special_ids(dec, n as nat);
                                assert(tokens_view_pairs(before).len() == idx - first);
                                assert forall|k: int| 0 <= k < idx - first + 1 implies #[trigger] tokens_view_pairs(
                                    special_tokens_encoder@,
                                )[k] == want.take(idx - first + 1)[k] by {
                                    if k < idx - first {
                                        assert(special_tokens_encoder@[k] == before[k]);
                                        assert(tokens_view_pairs(before)[k] == want.take(idx - first)[k]);
                                    } else {
                                        assert(special_tokens_encoder@[k] == (copy, idx));
                                        assert((dec.len() - n + k) as u16 == idx);
                                    }
                                }
                                assert(tokens_view_pairs(special_tokens_encoder@) =~= want.take(idx - first + 1));
                            }
                        },
                        None => {},
                    }
                }
                special_patterns = Some(nonempty_token_bytes(st));
            },
            None => {},
        }
        let index = build_id_index(&vocab);
        let encoder = build_encoder(&index, &vocab, &merges);
        let byte_encoder = build_byte_encoder(&vocab);
        proof {
            lemma_rules_agree(dec, merges_view(merges@));
            lemma_bytes_agree(dec, 256);
            match special_tokens {
                Some(st) => {
                    lemma_course_specials_agree(dec, st@);
                },
                None => {
                    assert(tokens_view_pairs(special_tokens_encoder@) =~= Seq::<(Seq<u8>, u16)>::empty());
                },
            }
        }
        Tokenizer { decoder: vocab, special_tokens_encoder, special_patterns, encoder, byte_encoder }
    }

    /// Builds a tokenizer from a vocabulary given as a list (id `i` stands for
    /// the `i`-th token), a merge list, and special tokens, which get the ids
    /// after the vocabulary's. Each byte is its own token.
    pub fn load(vocab: Vec<TokenBytes>, merges: Vec<(TokenBytes, TokenBytes)>, special_tokens: &[String]) -> (t: Tokenizer)
        requires
            vocab@.len() + special_tokens@.len() <= 65535,
            merges_known(vocab_map(tokens_view(vocab@)), merges_view(merges@)),
        ensures
            t.decoder_map() == vocab_map(tokens_view(vocab@)),
            t.encoder_map() == merge_rules(vocab_map(tokens_view(vocab@)), merges_view(merges@)),
            t.byte_map() == identity_bytes(),
            t.special_ids() == appended_special_ids(special_tokens@, vocab@.len()),
            t.special_patterns_view() == if nonempty_only(token_bytes(special_tokens@)).len() > 0 {
                Some(nonempty_only(token_bytes(special_tokens@)))
            } else {
                None
            },
            rules_agree(t.decoder_map(), t.encoder_map()),
            bytes_first(tokens_view(vocab@)) ==> bytes_agree(t.decoder_map(), t.byte_map()),
            special_tokens@.len() == 0 ==> specials_agree(t.decoder_map(), t.special_ids()),
    {
        let ghost tv = tokens_view(vocab@);
        let n = vocab.len();
        let mut special_tokens_encoder: Vec<(TokenBytes, TokenId)> = Vec::new();
        for i in 0..special_tokens.len()
            invariant
                n == vocab@.len(),
                n + special_tokens@.len() <= 65535,
                tokens_view_pairs(special_tokens_encoder@) == appended_special_ids(special_tokens@, n as nat).take(i as int),
        {
            let token: &str = special_tokens[i].as_str();
            let bytes = token.as_bytes_vec();
            let id = (n + i) as u16;
            let ghost before = special_tokens_encoder@;
            let ghost bv = bytes@;
            special_tokens_encoder.push((bytes, id));
            proof {
                let want = appended_special_ids(special_tokens@, n as nat);
                assert(token_bytes(special_tokens@)[i as int] == encode_utf8(special_tokens@[i as int]@));
                assert(bv == token_bytes(special_tokens@)[i as int]);
                assert(tokens_view_pairs(before).len() == i);
                assert forall|k: int| 0 <= k < i + 1 implies #[trigger] tokens_view_pairs(special_tokens_encoder@)[k]
                    == want.take(i + 1)[k] by {
                    if k < i {
                        assert(special_tokens_encoder@[k] == before[k]);
                        assert(tokens_view_pairs(before)[k] == want.take(i as int)[k]);
                    } else {
                        assert(special_tokens_encoder@[k].0@ == bv);
                        assert(special_tokens_encoder@[k].1 == id);
                    }
                }
                assert(tokens_view_pairs(special_tokens_encoder@) =~= want.take(i + 1));
            }
        }
        proof {
            assert(appended_special_ids(special_tokens@, n as nat).take(special_tokens@.len() as int) =~= appended_special_ids(
                special_tokens@,
                n as nat,
            ));
        }
        let mut decoder: HashMap<TokenId, TokenBytes> = HashMap::new();
        for i in 0..n
            invariant
                n == vocab@.len(),
                n <= 65535,
                tv == tokens_view(vocab@),
                decoder@.map_values(|b: TokenBytes| b@) == Map::new(|id: u16| (id as int) < i, |id: u16| tv[id as int]),
        {
            let copy = copy_bytes(&vocab[i]);
            let ghost before = decoder@;
            let ghost cv = copy@;
            decoder.insert(i as u16, copy);
            proof {
                assert(cv == tv[i as int]);
                let dm = decoder@.map_values(|b: TokenBytes| b@);
                let bm = before.map_values(|b: TokenBytes| b@);
                assert forall|id: u16| #[trigger] dm.contains_key(id) <==> (id as int) < i + 1 by {
                    if id != i as u16 {
                        assert(bm.contains_key(id) <==> before.contains_key(id));
                    }
                }
                assert forall|id: u16| #[trigger] dm.contains_key(id) implies dm[id] == tv[id as int] by {
                    if id != i as u16 {
                        assert(before.contains_key(id));
                        assert(before.map_values(|b: TokenBytes| b@)[id] == tv[id as int]);
                    }
                }
                assert(decoder@.map_values(|b: TokenBytes| b@) =~= Map::new(|id: u16| (id as int) < i + 1, |id: u16| tv[id as int]));
            }
        }
        proof {
            assert(decoder@.map_values(|b: TokenBytes| b@) =~= vocab_map(tv));
        }
        let mut byte_encoder: HashMap<u8, TokenId> = HashMap::new();
        for b in 0..256u16
            invariant
                byte_encoder@ == Map::new(|x: u8| (x as int) < b, |x: u8| x as u16),
        {
            byte_encoder.insert(b as u8, b);
            proof {
                assert(byte_encoder@ =~= Map::new(|x: u8| (x as int) < b + 1, |x: u8| x as u16));
            }
        }
        proof {
            assert(byte_encoder@ =~= identity_bytes());
        }
        let patterns = nonempty_token_bytes(special_tokens);
        let special_patterns = if patterns.len() > 0 { Some(patterns) } else { None };
        let index = build_id_index(&decoder);
        let encoder = build_encoder(&index, &decoder, &merges);
        proof {
            lemma_rules_agree(vocab_map(tv), merges_view(merges@));
            if bytes_first(tv) {
                lemma_identity_bytes_agree(tv);
            }
        }
        Tokenizer { decoder, special_tokens_encoder, special_patterns, encoder, byte_encoder }
    }
}

/// The bytes and ids of special tokens.
pub open spec fn tokens_view_pairs(v: Seq<(TokenBytes, TokenId)>) -> Seq<(Seq<u8>, u16)> {
    v.map_values(|e: (TokenBytes, TokenId)| (e.0@, e.1))
}

/// Whether the first 256 tokens are the bytes, in order.
pub open spec fn bytes_first(vocab: Seq<Seq<u8>>) -> bool {
    forall|b: u8| (b as int) < vocab.len() && #[trigger] vocab[b as int] == seq![b]
}

/// When the first 256 tokens are the bytes in order, each byte is its own token.
proof fn lemma_identity_bytes_agree(tv: Seq<Seq<u8>>)
    requires
        bytes_first(tv),
    ensures
        bytes_agree(vocab_map(tv), identity_bytes()),
{
    assert forall|b: u8| #[trigger] identity_bytes().contains_key(b) implies vocab_map(tv).contains_key(identity_bytes()[b])
        && vocab_map(tv)[identity_bytes()[b]] == seq![b] by {
        assert(tv[b as int] == seq![b]);
        assert(identity_bytes()[b] == b as u16);
    }
}

/// Whether the vocabulary has the tokens of every merge.
fn merges_found(
    index: &HashMap<u64, Vec<TokenId>>,
    decoder: &HashMap<TokenId, TokenBytes>,
    merges: &[(TokenBytes, TokenBytes)],
) -> (r: bool)
    requires
        index_holds(index@, decoder@.map_values(|t: TokenBytes| t@), 65536),
    ensures
        r == merges_known(decoder@.map_values(|t: TokenBytes| t@), merges_view(merges@)),
{
    let ghost dec = decoder@.map_values(|t: TokenBytes| t@);
    let ghost mv = merges_view(merges@);
    for i in 0..merges.len()
        invariant
            dec == decoder@.map_values(|t: TokenBytes| t@),
            mv == merges_view(merges@),
            index_holds(index@, dec, 65536),
            forall|j: int| 0 <= j < i ==> {
                let m = #[trigger] mv[j];
                &&& token_id(dec, m.0) is Some
                &&& token_id(dec, m.1) is Some
                &&& token_id(dec, m.0 + m.1) is Some
            },
    {
        let a: &TokenBytes = &merges[i].0;
        let b: &TokenBytes = &merges[i].1;
        proof {
            assert(mv[i as int] == (a@, b@));
        }
        let merged = concat_bytes(a, b);
        if lookup_id(index, decoder, a).is_none() || lookup_id(index, decoder, b).is_none() || lookup_id(
            index,
            decoder,
            &merged,
        ).is_none() {
            return false;
        }
    }
    true
}

/// Whether the first 256 ids are single-byte tokens.
fn first_ids_are_bytes(vocab: &HashMap<u16, TokenBytes>) -> (r: bool)
    ensures
        r == byte_tokens(vocab@.map_values(|b: TokenBytes| b@)),
{
    let ghost dec = vocab@.map_values(|b: TokenBytes| b@);
    let mut i: u32 = 0;
    while i < 256
        invariant
            i <= 256,
            dec == vocab@.map_values(|b: TokenBytes| b@),
            forall|k: u16| #![trigger dec.contains_key(k)] (k as int) < i ==> dec.contains_key(k) && dec[k].len() == 1,
        decreases 256 - i,
    {
        let id = i as u16;
        proof {
            assert(id < 256 && id as int == i);
        }
        match vocab.get(&id) {
            Some(bytes) => {
                proof {
                    assert(dec[id] == bytes@);
                }
                if bytes.len() != 1 {
                    proof {
                        lemma_not_byte_tokens(dec, id);
                    }
                    return false;
                }
            },
            None => {
                proof {
                    assert(!dec.contains_key(id));
                    lemma_not_byte_tokens(dec, id);
                }
                return false;
            },
        }
        i += 1;
    }
    true
}

/// One of the first 256 ids without a single byte breaks `byte_tokens`.
proof fn lemma_not_byte_tokens(dec: Map<u16, Seq<u8>>, id: u16)
    requires
        id < 256,
        !(dec.contains_key(id) && dec[id].len() == 1),
    ensures
        !byte_tokens(dec),
{
}

/// Whether some special token has the given bytes.
fn is_special_bytes(special_tokens: &[String], bytes: &TokenBytes) -> (r: bool)
    ensures
        r == token_bytes(special_tokens@).contains(bytes@),
{
    let ghost tb = token_bytes(special_tokens@);
    for t in 0..special_tokens.len()
        invariant
            tb == token_bytes(special_tokens@),
            forall|u: int| 0 <= u < t ==> #[trigger] tb[u] != bytes@,
    {
        let token = special_tokens[t].as_str().as_bytes_vec();
        proof {
            assert(tb[t as int] == token@);
        }
        if bytes_equal(&token, bytes) {
            return true;
        }
    }
    false
}

/// Whether special tokens fit a course vocabulary.
fn course_specials_fit(vocab: &HashMap<u16, TokenBytes>, special_tokens: &[String]) -> (r: bool)
    ensures
        r == course_specials_ok(vocab@.map_values(|b: TokenBytes| b@), special_tokens@),
{
    let ghost dec = vocab@.map_values(|b: TokenBytes| b@);
    proof {
        assert(vocab@.dom() =~= dec.dom());
    }
    let n = special_tokens.len();
    let total = vocab.len();
    if n >= 65535 || total >= 65535 || n > total {
        return false;
    }
    let mut k: usize = total - n;
    while k < total
        invariant
            dec == vocab@.map_values(|b: TokenBytes| b@),
            n == special_tokens@.len(),
            total == dec.len(),
            total < 65535,
            n <= total,
            total - n <= k <= total,
            forall|j: int| #![trigger dec.contains_key(j as u16)] total - n <= j < k ==> dec.contains_key(j as u16) && token_bytes(special_tokens@).contains(
                dec[j as u16],
            ),
        decreases total - k,
    {
        let idx = k as u16;
        match vocab.get(&idx) {
            Some(bytes) => {
                proof {
                    assert(dec[idx] == bytes@);
                    assert((k as int) as u16 == idx);
                }
                if !is_special_bytes(special_tokens, bytes) {
                    return false;
                }
                proof {
                    assert(dec.contains_key((k as int) as u16) && token_bytes(special_tokens@).contains(dec[(k as int) as u16]));
                    assert forall|j: int| #![trigger dec.contains_key(j as u16)] total - n <= j < k + 1 implies dec.contains_key(j as u16)
                        && token_bytes(special_tokens@).contains(dec[j as u16]) by {
                        if j == k {
                            assert((j as u16) == ((k as int) as u16));
                        }
                    }
                }
            },
            None => {
                proof {
                    assert((k as int) as u16 == idx);
                    assert(!dec.contains_key(idx));
                }
                return false;
            },
        }
        k += 1;
    }
    true
}

impl Tokenizer {
    /// Builds a tokenizer as `load_course` does, or gives `None` when the
    /// vocabulary's first 256 ids are not single bytes, a merge's tokens are not
    /// in it, or the special tokens are not its last tokens.
    pub fn try_load_course(
        vocab: HashMap<u16, TokenBytes>,
        merges: Vec<(TokenBytes, TokenBytes)>,
        special_tokens: Option<&[String]>,
    ) -> (r: Option<Tokenizer>)
        ensures
            r is Some <==> (special_tokens matches Some(st) ==> course_specials_ok(vocab@.map_values(|b: TokenBytes| b@), st@))
                && merges_known(vocab@.map_values(|b: TokenBytes| b@), merges_view(merges@))
                && byte_tokens(vocab@.map_values(|b: TokenBytes| b@)),
            r matches Some(t) ==> t.decoder_map() == vocab@.map_values(|b: TokenBytes| b@)
                && t.encoder_map() == merge_rules(vocab@.map_values(|b: TokenBytes| b@), merges_view(merges@))
                && t.byte_map() == byte_rules(vocab@.map_values(|b: TokenBytes| b@), 256)
                && t.special_ids() == match special_tokens {
                Some(st) => course_special_ids(vocab@.map_values(|b: TokenBytes| b@), st@.len()),
                None => seq![],
            } && t.special_patterns_view() == match special_tokens {
                Some(st) => Some(nonempty_only(token_bytes(st@))),
                None => None,
            },
            r matches Some(t) ==> rules_agree(t.decoder_map(), t.encoder_map()) && bytes_agree(t.decoder_map(), t.byte_map())
                && specials_agree(t.decoder_map(), t.special_ids()),
    {
        if !first_ids_are_bytes(&vocab) {
            return None;
        }
        let index = build_id_index(&vocab);
        if !merges_found(&index, &vocab, &merges) {
            return None;
        }
        match special_tokens {
            Some(st) => {
                if !course_specials_fit(&vocab, st) {
                    return None;
                }
            },
            None => {},
        }
        Some(Tokenizer::load_course(vocab, merges, special_tokens))
    }

    /// Builds a tokenizer as `load` does, or gives `None` when the vocabulary and
    /// special tokens are too many for 16-bit ids or a merge's tokens are not in
    /// the vocabulary.
    pub fn try_load(vocab: Vec<TokenBytes>, merges: Vec<(TokenBytes, TokenBytes)>, special_tokens: &[String]) -> (r: Option<
        Tokenizer,
    >)
        ensures
            r is Some <==> vocab@.len() + special_tokens@.len() <= 65535 && merges_known(
                vocab_map(tokens_view(vocab@)),
                merges_view(merges@),
            ),
            r matches Some(t) ==> t.decoder_map() == vocab_map(tokens_view(vocab@)) && t.encoder_map() == merge_rules(
                vocab_map(tokens_view(vocab@)),
                merges_view(merges@),
            ) && t.byte_map() == identity_bytes() && t.special_ids() == appended_special_ids(special_tokens@, vocab@.len()),
            r matches Some(t) ==> t.special_patterns_view() == if nonempty_only(token_bytes(special_tokens@)).len() > 0 {
                Some(nonempty_only(token_bytes(special_tokens@)))
            } else {
                None
            },
            r matches Some(t) ==> rules_agree(t.decoder_map(), t.encoder_map()),
            r matches Some(t) ==> (bytes_first(tokens_view(vocab@)) ==> bytes_agree(t.decoder_map(), t.byte_map())),
            r matches Some(t) ==> (special_tokens@.len() == 0 ==> specials_agree(t.decoder_map(), t.special_ids())),
    {
        if vocab.len() > 65535 || special_tokens.len() > 65535 - vocab.len() {
            return None;
        }
        let mut decoder: HashMap<TokenId, TokenBytes> = HashMap::new();
        let ghost tv = tokens_view(vocab@);
        for i in 0..vocab.len()
            invariant
                vocab@.len() <= 65535,
                tv == tokens_view(vocab@),
                decoder@.map_values(|b: TokenBytes| b@) == Map::new(|id: u16| (id as int) < i, |id: u16| tv[id as int]),
        {
            let copy = copy_bytes(&vocab[i]);
            let ghost before = decoder@;
            let ghost cv = copy@;
            decoder.insert(i as u16, copy);
            proof {
                assert(cv == tv[i as int]);
                let dm = decoder@.map_values(|b: TokenBytes| b@);
                let bm = before.map_values(|b: TokenBytes| b@);
                assert forall|id: u16| #[trigger] dm.contains_key(id) <==> (id as int) < i + 1 by {
                    if id != i as u16 {
                        assert(bm.contains_key(id) <==> before.contains_key(id));
                    }
                }
                assert forall|id: u16| #[trigger] dm.contains_key(id) implies dm[id] == tv[id as int] by {
                    if id != i as u16 {
                        assert(before.contains_key(id));
                        assert(bm[id] == tv[id as int]);
                    }
                }
                assert(dm =~= Map::new(|id: u16| (id as int) < i + 1, |id: u16| tv[id as int]));
            }
        }
        proof {
            assert(decoder@.map_values(|b: TokenBytes| b@) =~= vocab_map(tv));
        }
        let index = build_id_index(&decoder);
        if !merges_found(&index, &decoder, &merges) {
            return None;
        }
        Some(Tokenizer::load(vocab, merges, special_tokens))
    }
}

} // verus!

verus! {

/// The pair of `w` at positions `i` and `i + 1`, packed.
pub open spec fn pair_at(w: Seq<u16>, i: int) -> u32 {
    pack(w[i], w[i + 1])
}

/// What the best pair among the first `n` adjacent pairs is: a pair of the word
/// with a rule, of rank no higher than any other such pair.
proof fn lemma_best_upto_lowest(w: Seq<u16>, enc: Map<u32, MergeRule>, n: int)
    requires
        n < w.len(),
    ensures
        best_upto(w, enc, n) matches Some(q) ==> enc.contains_key(q) && (exists|i: int|
            0 <= i < n && #[trigger] pair_at(w, i) == q) && forall|j: int|
            0 <= j < n && enc.contains_key(#[trigger] pair_at(w, j)) ==> enc[q].rank <= enc[pair_at(w, j)].rank,
        best_upto(w, enc, n) is None ==> forall|j: int| 0 <= j < n ==> !enc.contains_key(#[trigger] pair_at(w, j)),
    decreases n,
{
    if n > 0 {
        lemma_best_upto_lowest(w, enc, n - 1);
        let here = pair_at(w, n - 1);
        assert(here == pack(w[n - 1], w[n]));
        match best_upto(w, enc, n) {
            Some(q) => {
                if q == here {
                    assert(pair_at(w, n - 1) == q);
                } else {
                    let i = choose|i: int| 0 <= i < n - 1 && #[trigger] pair_at(w, i) == q;
                    assert(pair_at(w, i) == q);
                }
            },
            None => {},
        }
    }
}

/// Byte-pair encoding merges first the adjacent pair whose merge rank is lowest:
/// the pair a word merges next has a rule, occurs in the word, and ranks no
/// higher than any other adjacent pair with a rule; a word merges nothing only
/// when none of its adjacent pairs has a rule.
pub proof fn law_best_pair_lowest_rank(w: Seq<u16>, enc: Map<u32, MergeRule>)
    ensures
        best_pair(w, enc) matches Some(q) ==> enc.contains_key(q) && (exists|i: int|
            0 <= i < w.len() - 1 && #[trigger] pair_at(w, i) == q) && forall|j: int|
            0 <= j < w.len() - 1 && enc.contains_key(#[trigger] pair_at(w, j)) ==> enc[q].rank <= enc[pair_at(
                w,
                j,
            )].rank,
        best_pair(w, enc) is None <==> forall|j: int| 0 <= j < w.len() - 1 ==> !enc.contains_key(#[trigger] pair_at(w, j)),
{
    if w.len() > 0 {
        lemma_best_upto_lowest(w, enc, w.len() - 1);
        if best_pair(w, enc) is Some {
            let q = best_pair(w, enc)->0;
            let i = choose|i: int| 0 <= i < w.len() - 1 && #[trigger] pair_at(w, i) == q;
            assert(enc.contains_key(pair_at(w, i)));
        }
    }
}

/// Byte-pair encoding runs until no adjacent pair of the word has a merge rule.
pub proof fn law_bpe_leaves_no_rule(w: Seq<u16>, enc: Map<u32, MergeRule>)
    ensures
        forall|j: int| 0 <= j < bpe(w, enc).len() - 1 ==> !enc.contains_key(#[trigger] pair_at(bpe(w, enc), j)),
    decreases w.len(),
{
    law_best_pair_lowest_rank(w, enc);
    match best_pair(w, enc) {
        None => {},
        Some(q) => {
            let i = choose|i: int| 0 <= i < w.len() - 1 && #[trigger] pair_at(w, i) == q;
            lemma_pack_unpack(w[i], w[i + 1]);
            lemma_merge_shorter(w, pair_hi(q), pair_lo(q), enc[q].new_id, i);
            let m = merge(w, pair_hi(q), pair_lo(q), enc[q].new_id);
            law_bpe_leaves_no_rule(m, enc);
            assert(bpe(w, enc) == bpe(m, enc));
        },
    }
}

/// The id recorded for some bytes is that of the last entry holding them.
proof fn lemma_special_id_last(ids: Seq<(Seq<u8>, u16)>, i: int)
    requires
        0 <= i < ids.len(),
        forall|j: int| i < j < ids.len() ==> (#[trigger] ids[j]).0 != ids[i].0,
    ensures
        special_id_of(ids, ids[i].0) == Some(ids[i].1),
    decreases ids.len(),
{
    if i < ids.len() - 1 {
        assert(ids.last() == ids[ids.len() - 1]);
        lemma_special_id_last(ids.drop_last(), i);
    }
}

/// `load` hands special tokens the ids after the vocabulary, in the order they
/// are given: the `i`-th gets id `n + i` (when no later one has the same bytes).
pub proof fn law_special_ids_in_order(special_tokens: Seq<String>, n: nat, i: int)
    requires
        0 <= i < special_tokens.len(),
        n + special_tokens.len() <= 65535,
        forall|j: int| i < j < special_tokens.len() ==> #[trigger] token_bytes(special_tokens)[j] != token_bytes(
            special_tokens,
        )[i],
    ensures
        special_id_of(appended_special_ids(special_tokens, n), token_bytes(special_tokens)[i]) == Some((n + i) as u16),
        (n + i) as u16 as int == n + i,
{
    let ids = appended_special_ids(special_tokens, n);
    assert forall|j: int| i < j < ids.len() implies (#[trigger] ids[j]).0 != ids[i].0 by {
        assert(ids[j].0 == token_bytes(special_tokens)[j]);
    }
    lemma_special_id_last(ids, i);
}

/// Whether a segment of ordinary text holds no position where a non-empty
/// special token starts (a special segment always does).
pub open spec fn text_clear(hay: Seq<u8>, needles: Seq<Seq<u8>>, seg: Segment) -> bool {
    match seg {
        Segment::Text(s, e) => forall|j: int, t: int|
            s <= j < e && 0 <= t < needles.len() && needles[t].len() > 0 ==> !#[trigger] crate::split::occurs_at(
                hay,
                needles[t],
                j,
            ),
        Segment::Special(_) => true,
    }
}

/// No text segment holds the start of a special token: where the scan finds one
/// it always cuts, whether or not text comes before it.
proof fn lemma_segments_text_clear(hay: Seq<u8>, needles: Seq<Seq<u8>>, cursor: int, i: int)
    requires
        0 <= cursor <= i <= hay.len(),
        hay.len() <= usize::MAX,
        forall|j: int, t: int|
            cursor <= j < i && 0 <= t < needles.len() && needles[t].len() > 0 ==> !#[trigger] crate::split::occurs_at(
                hay,
                needles[t],
                j,
            ),
    ensures
        forall|k: int|
            0 <= k < segments_from(hay, needles, cursor, i).len() ==> text_clear(
                hay,
                needles,
                #[trigger] segments_from(hay, needles, cursor, i)[k],
            ),
    decreases hay.len() - i,
{
    let segs = segments_from(hay, needles, cursor, i);
    if i >= hay.len() {
        assert forall|k: int| 0 <= k < segs.len() implies text_clear(hay, needles, #[trigger] segs[k]) by {
            assert(k == 0);
            assert(segs[0] == Segment::Text(cursor as usize, hay.len() as usize));
            assert forall|j: int, t: int|
                cursor <= j < hay.len() && 0 <= t < needles.len() && needles[t].len() > 0 implies !#[trigger] crate::split::occurs_at(
                hay,
                needles[t],
                j,
            ) by {
                if j >= i {
                    assert(!crate::split::occurs_at(hay, needles[t], j));
                }
            }
        }
    } else {
        match alt_match_index(hay, needles, i, 0) {
            Some(t0) => {
                if 0 <= t0 < needles.len() && 0 < needles[t0].len() && i + needles[t0].len() <= hay.len() {
                    let l = needles[t0].len() as int;
                    let rest = segments_from(hay, needles, i + l, i + l);
                    lemma_segments_text_clear(hay, needles, i + l, i + l);
                    assert(segs == seq![Segment::Text(cursor as usize, i as usize), Segment::Special(t0 as usize)] + rest);
                    assert forall|k: int| 0 <= k < segs.len() implies text_clear(hay, needles, #[trigger] segs[k]) by {
                        if k >= 2 {
                            assert(segs[k] == rest[k - 2]);
                        } else if k == 0 {
                            assert(segs[0] == Segment::Text(cursor as usize, i as usize));
                        } else {
                            assert(segs[1] == Segment::Special(t0 as usize));
                        }
                    }
                } else {
                    lemma_alt_match_occurs(hay, needles, i, 0);
                    assert(false);
                }
            },
            None => {
                assert forall|t: int| 0 <= t < needles.len() && needles[t].len() > 0 implies !#[trigger] crate::split::occurs_at(
                    hay,
                    needles[t],
                    i,
                ) by {
                    lemma_no_alt_match(hay, needles, i, 0, t);
                }
                lemma_segments_text_clear(hay, needles, cursor, i + 1);
                assert(segs == segments_from(hay, needles, cursor, i + 1));
            },
        }
    }
}

/// When no special token matches at `i` trying from the `t0`-th on, none of
/// those occurs there.
proof fn lemma_no_alt_match(hay: Seq<u8>, needles: Seq<Seq<u8>>, i: int, t0: int, t: int)
    requires
        0 <= t0 <= t < needles.len(),
        alt_match_index(hay, needles, i, t0) is None,
        needles[t].len() > 0,
    ensures
        !crate::split::occurs_at(hay, needles[t], i),
    decreases t - t0,
{
    if t0 < t {
        lemma_no_alt_match(hay, needles, i, t0 + 1, t);
    }
}

/// Splitting a text at special tokens cuts at every special token the scan from
/// the left meets: no range of ordinary text holds a position where a special
/// token starts, so a token at the very start, or right after another, is a
/// special segment of its own.
pub proof fn law_text_segments_hold_no_special(hay: Seq<u8>, needles: Seq<Seq<u8>>)
    requires
        hay.len() <= usize::MAX,
    ensures
        forall|k: int|
            0 <= k < segments_from(hay, needles, 0, 0).len() ==> text_clear(
                hay,
                needles,
                #[trigger] segments_from(hay, needles, 0, 0)[k],
            ),
{
    lemma_segments_text_clear(hay, needles, 0, 0);
}

} // verus!
