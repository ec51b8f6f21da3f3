//! What a run of byte-pair training is: the state it keeps, the step that merges
//! the best pair, and the laws that every run keeps.
use vstd::prelude::*;

use crate::pairs::{
    lemma_merge_first,
    any, entries_below, ids_below, lemma_added_below, lemma_any_pos, lemma_merge_all_counts, lemma_merge_all_weight,
    lemma_merge_below, lemma_occ_below, lemma_wsum_pos, merge, merge_all, occ, occurs, pair_hi, pair_lo, added_events,
    added_total, removed_total, total, weight, wsum, Entry,
};
use crate::utils::{applied_count, keeps_key, pairs_in_vocab, ranks_le};

verus! {

/// The state of a training run: the weighted words as merged so far, the
/// vocabulary, and the pairs whose counts are kept.
pub struct TrainState {
    pub entries: Seq<Entry>,
    pub vocab: Seq<Seq<u8>>,
    pub keys: Set<u32>,
}

/// The vocabulary every run starts with: one token for each byte, in byte order.
pub open spec fn byte_vocab() -> Seq<Seq<u8>> {
    Seq::new(256, |i: int| seq![i as u8])
}

/// The state before any merge: the pairs kept are those that occur in some word.
pub open spec fn initial_state(es: Seq<Entry>) -> TrainState {
    TrainState { entries: es, vocab: byte_vocab(), keys: Set::new(|p: u32| occurs(es, p)) }
}

/// The pair counts of a state: each pair kept, with its count in the words.
pub open spec fn pair_counts(s: TrainState) -> Map<u32, usize> {
    Map::new(|p: u32| s.keys.contains(p), |p: u32| total(s.entries, p) as usize)
}

/// Merges the pair `q` into a new token, whose id is the vocabulary's length:
/// every word is merged, the new token's bytes join the vocabulary, and the
/// kept pairs change as the counts the merge takes away and adds say.
pub open spec fn merge_step(s: TrainState, q: u32) -> TrainState {
    let a = pair_hi(q);
    let b = pair_lo(q);
    let x = s.vocab.len() as u16;
    TrainState {
        entries: merge_all(s.entries, a, b, x),
        vocab: s.vocab.push(s.vocab[a as int] + s.vocab[b as int]),
        keys: Set::new(
            |p: u32|
                keeps_key(
                    s.keys.contains(p),
                    total(s.entries, p),
                    removed_total(s.entries, a, b, x, p),
                    added_total(s.entries, a, b, x, p),
                ),
        ),
    }
}

/// The state after merging the pairs `qs` in turn.
pub open spec fn run(es: Seq<Entry>, qs: Seq<u32>) -> TrainState
    decreases qs.len(),
{
    if qs.len() == 0 {
        initial_state(es)
    } else {
        merge_step(run(es, qs.drop_last()), qs.last())
    }
}

/// Whether `q` is a pair to merge next: a kept pair that ranks at least as high
/// as every kept pair.
pub open spec fn is_best_pair(s: TrainState, q: u32) -> bool {
    &&& s.keys.contains(q)
    &&& forall|p: u32| #[trigger] s.keys.contains(p) ==> ranks_le(pair_counts(s), s.vocab, p, q)
}

/// Whether each pair of `qs` was a best pair when it was merged.
pub open spec fn valid_run(es: Seq<Entry>, qs: Seq<u32>) -> bool
    decreases qs.len(),
{
    qs.len() == 0 || (valid_run(es, qs.drop_last()) && is_best_pair(run(es, qs.drop_last()), qs.last()))
}

/// The merges of a run: the bytes of the two tokens of each merged pair.
pub open spec fn run_merges(es: Seq<Entry>, qs: Seq<u32>) -> Seq<(Seq<u8>, Seq<u8>)>
    decreases qs.len(),
{
    if qs.len() == 0 {
        seq![]
    } else {
        let s = run(es, qs.drop_last());
        run_merges(es, qs.drop_last()).push((s.vocab[pair_hi(qs.last()) as int], s.vocab[pair_lo(qs.last()) as int]))
    }
}

/// How many merges a vocabulary of at most `max_vocab_size` tokens (at most
/// 65536), with room for `n_special` special tokens, leaves room for.
pub open spec fn merge_limit(max_vocab_size: nat, n_special: nat) -> nat {
    let top = (if max_vocab_size < 65536 { max_vocab_size as int } else { 65536 }) - 1 - n_special;
    if top >= 256 {
        (top - 255) as nat
    } else {
        0
    }
}

/// Whether `qs` is a whole training run: best pairs merged one after another
/// until `limit` merges are made or no pair is left.
pub open spec fn finished_run(es: Seq<Entry>, limit: nat, qs: Seq<u32>) -> bool {
    &&& valid_run(es, qs)
    &&& qs.len() <= limit
    &&& qs.len() < limit ==> run(es, qs).keys =~= Set::empty()
}

/// What every state of a run keeps: ids and kept pairs stand for tokens of the
/// vocabulary, a pair that occurs is kept, and the words grow no longer.
pub open spec fn good_state(s: TrainState, max_weight: nat) -> bool {
    &&& entries_below(s.entries, s.vocab.len())
    &&& pairs_in_vocab(pair_counts(s), s.vocab.len())
    &&& forall|p: u32| #[trigger] total(s.entries, p) > 0 ==> s.keys.contains(p)
    &&& weight(s.entries) <= max_weight
}

/// The first state is a good one.
pub proof fn lemma_initial_good(es: Seq<Entry>)
    requires
        entries_below(es, 256),
    ensures
        good_state(initial_state(es), weight(es)),
{
    let s = initial_state(es);
    assert forall|p: u32| #[trigger] pair_counts(s).contains_key(p) implies pair_hi(p) < 256 && pair_lo(p) < 256 by {
        let i = lemma_any_pos(es, |w: Seq<u16>| occ(w, p));
        lemma_occ_below(es[i].0, p, 256);
    }
    assert forall|p: u32| #[trigger] total(s.entries, p) > 0 implies s.keys.contains(p) by {
        let i = lemma_wsum_pos(es, |w: Seq<u16>| occ(w, p));
        lemma_any_has(es, |w: Seq<u16>| occ(w, p), i);
    }
}

/// A measure positive on some word makes `any` hold.
pub proof fn lemma_any_has(es: Seq<Entry>, f: spec_fn(Seq<u16>) -> nat, i: int)
    requires
        0 <= i < es.len(),
        f(es[i].0) > 0,
    ensures
        any(es, f),
    decreases es.len(),
{
    if i < es.len() - 1 {
        lemma_any_has(es.drop_last(), f, i);
    }
}

/// A merge of a best pair keeps a state good, and the pair counts it takes away
/// never exceed those there are.
pub proof fn lemma_step_good(s: TrainState, q: u32, max_weight: nat)
    requires
        good_state(s, max_weight),
        is_best_pair(s, q),
        s.vocab.len() < 65536,
    ensures
        good_state(merge_step(s, q), max_weight),
        forall|p: u32| #![trigger removed_total(s.entries, pair_hi(q), pair_lo(q), s.vocab.len() as u16, p)]
            removed_total(s.entries, pair_hi(q), pair_lo(q), s.vocab.len() as u16, p) > added_total(
                s.entries,
                pair_hi(q),
                pair_lo(q),
                s.vocab.len() as u16,
                p,
            ) ==> s.keys.contains(p) && total(s.entries, p) >= removed_total(
                s.entries,
                pair_hi(q),
                pair_lo(q),
                s.vocab.len() as u16,
                p,
            ) - added_total(s.entries, pair_hi(q), pair_lo(q), s.vocab.len() as u16, p),
        forall|p: u32| #![trigger removed_total(s.entries, pair_hi(q), pair_lo(q), s.vocab.len() as u16, p)]
            applied_count(
                total(s.entries, p),
                removed_total(s.entries, pair_hi(q), pair_lo(q), s.vocab.len() as u16, p),
                added_total(s.entries, pair_hi(q), pair_lo(q), s.vocab.len() as u16, p),
            ) == total(merge_step(s, q).entries, p),
{
    let a = pair_hi(q);
    let b = pair_lo(q);
    let n = s.vocab.len();
    let x = n as u16;
    let t = merge_step(s, q);
    assert(pair_counts(s).contains_key(q));
    assert forall|i: int| 0 <= i < t.entries.len() implies ids_below(#[trigger] t.entries[i].0, n + 1) by {
        assert(ids_below(s.entries[i].0, n));
        lemma_merge_below(s.entries[i].0, a, b, x, n + 1);
    }
    assert forall|p: u32| #[trigger] total(s.entries, p) + added_total(s.entries, a, b, x, p) == total(t.entries, p)
        + removed_total(s.entries, a, b, x, p) by {
        lemma_merge_all_counts(s.entries, a, b, x, p);
    }
    assert forall|p: u32| #[trigger] pair_counts(t).contains_key(p) implies pair_hi(p) < n + 1 && pair_lo(p) < n + 1 by {
        if !s.keys.contains(p) {
            assert(total(s.entries, p) == 0);
            let i = lemma_wsum_pos(s.entries, |w: Seq<u16>| added_events(None, w, a, b, x, p));
            assert(ids_below(s.entries[i].0, n));
            lemma_added_below(None, s.entries[i].0, a, b, x, p, n + 1);
        } else {
            assert(pair_counts(s).contains_key(p));
        }
    }
    assert forall|p: u32| #[trigger] total(t.entries, p) > 0 implies t.keys.contains(p) by {
        assert(total(s.entries, p) + added_total(s.entries, a, b, x, p) == total(t.entries, p) + removed_total(
            s.entries,
            a,
            b,
            x,
            p,
        ));
    }
    assert forall|p: u32| removed_total(s.entries, a, b, x, p) > added_total(s.entries, a, b, x, p) implies s.keys.contains(p)
        && total(s.entries, p) >= removed_total(s.entries, a, b, x, p) - added_total(s.entries, a, b, x, p) by {
        assert(total(s.entries, p) + added_total(s.entries, a, b, x, p) == total(t.entries, p) + removed_total(
            s.entries,
            a,
            b,
            x,
            p,
        ));
        assert(total(s.entries, p) > 0);
    }
    lemma_merge_all_weight(s.entries, a, b, x);
}

/// The vocabulary of a run: the 256 byte tokens, then one token per merge, made
/// of the bytes of the merged pair's two tokens.
pub proof fn law_run_vocab(es: Seq<Entry>, qs: Seq<u32>)
    requires
        valid_run(es, qs),
    ensures
        run(es, qs).vocab.len() == 256 + qs.len(),
        run_merges(es, qs).len() == qs.len(),
        forall|i: int| 0 <= i < 256 ==> #[trigger] run(es, qs).vocab[i] == seq![i as u8],
        forall|i: int| #![trigger run_merges(es, qs)[i]] 0 <= i < qs.len() ==> run(es, qs).vocab[256 + i]
            == run_merges(es, qs)[i].0 + run_merges(es, qs)[i].1,
    decreases qs.len(),
{
    if qs.len() > 0 {
        law_run_vocab(es, qs.drop_last());
        let s = run(es, qs.drop_last());
        let q = qs.last();
        assert(pair_counts(s).contains_key(q));
        assert forall|i: int| #![trigger run_merges(es, qs)[i]] 0 <= i < qs.len() implies run(es, qs).vocab[256 + i]
            == run_merges(es, qs)[i].0 + run_merges(es, qs)[i].1 by {
            if i < qs.len() - 1 {
                assert(run_merges(es, qs)[i] == run_merges(es, qs.drop_last())[i]);
            }
        }
    }
}

/// When every word occurs at least once, the pairs a run keeps are exactly those
/// that occur in its words.
pub proof fn law_kept_pairs_occur(es: Seq<Entry>, qs: Seq<u32>)
    requires
        valid_run(es, qs),
        forall|i: int| 0 <= i < es.len() ==> #[trigger] es[i].1 > 0,
    ensures
        forall|p: u32| #[trigger] run(es, qs).keys.contains(p) <==> total(run(es, qs).entries, p) > 0,
    decreases qs.len(),
{
    if qs.len() == 0 {
        assert forall|p: u32| #[trigger] run(es, qs).keys.contains(p) <==> total(run(es, qs).entries, p) > 0 by {
            if occurs(es, p) {
                let i = lemma_any_pos(es, |w: Seq<u16>| occ(w, p));
                lemma_wsum_has(es, |w: Seq<u16>| occ(w, p), i);
            }
            if total(es, p) > 0 {
                let i = lemma_wsum_pos(es, |w: Seq<u16>| occ(w, p));
                lemma_any_has(es, |w: Seq<u16>| occ(w, p), i);
            }
        }
    } else {
        law_kept_pairs_occur(es, qs.drop_last());
        let s = run(es, qs.drop_last());
        let q = qs.last();
        let a = pair_hi(q);
        let b = pair_lo(q);
        let x = s.vocab.len() as u16;
        assert forall|p: u32| #[trigger] run(es, qs).keys.contains(p) <==> total(run(es, qs).entries, p) > 0 by {
            lemma_merge_all_counts(s.entries, a, b, x, p);
        }
    }
}

/// A word with a positive measure and a positive weight makes the sum positive.
pub proof fn lemma_wsum_has(es: Seq<Entry>, f: spec_fn(Seq<u16>) -> nat, i: int)
    requires
        0 <= i < es.len(),
        f(es[i].0) > 0,
        es[i].1 > 0,
    ensures
        wsum(es, f) > 0,
    decreases es.len(),
{
    if i < es.len() - 1 {
        lemma_wsum_has(es.drop_last(), f, i);
    } else {
        assert(es[i].1 * f(es[i].0) > 0) by (nonlinear_arith)
            requires
                es[i].1 > 0,
                f(es[i].0) > 0,
        ;
    }
}

} // verus!

verus! {

/// Applying the pair-count changes of a merge to the pair counts of weighted
/// words gives the pair counts of the merged words: each count becomes the
/// recount, and a pair is kept afterwards exactly when it still occurs, provided
/// the pairs kept before were exactly those that occurred.
pub proof fn law_delta_recount(es: Seq<Entry>, a: u16, b: u16, x: u16, p: u32)
    ensures
        applied_count(total(es, p), removed_total(es, a, b, x, p), added_total(es, a, b, x, p)) == total(
            merge_all(es, a, b, x),
            p,
        ),
        keeps_key(total(es, p) > 0, total(es, p), removed_total(es, a, b, x, p), added_total(es, a, b, x, p))
            == (total(merge_all(es, a, b, x), p) > 0),
{
    lemma_merge_all_counts(es, a, b, x, p);
}

/// Whether `q` is the only best pair of a state: every other kept pair ranks
/// strictly below it, by count or, at equal count, by the bytes of its tokens.
pub open spec fn strictly_best(s: TrainState, q: u32) -> bool {
    forall|p: u32| #[trigger] s.keys.contains(p) && p != q ==> !ranks_le(pair_counts(s), s.vocab, q, p)
}

/// A prefix of a valid run is valid, and the next pair of the run is a best pair
/// of the state the prefix reaches.
proof fn lemma_valid_prefix(es: Seq<Entry>, qs: Seq<u32>, k: int)
    requires
        valid_run(es, qs),
        0 <= k <= qs.len(),
    ensures
        valid_run(es, qs.take(k)),
        k < qs.len() ==> is_best_pair(run(es, qs.take(k)), qs[k]),
    decreases qs.len(),
{
    if k < qs.len() {
        if k == qs.len() - 1 {
            assert(qs.take(k) == qs.drop_last());
        } else {
            lemma_valid_prefix(es, qs.drop_last(), k);
            assert(qs.drop_last().take(k) == qs.take(k));
        }
    } else {
        assert(qs.take(k) == qs);
    }
}

/// Two whole runs, the first of which only ever merges the only best pair, agree
/// on their first `k` pairs.
proof fn lemma_runs_agree(es: Seq<Entry>, limit: nat, qs1: Seq<u32>, qs2: Seq<u32>, k: int)
    requires
        finished_run(es, limit, qs1),
        finished_run(es, limit, qs2),
        forall|j: int| 0 <= j < qs1.len() ==> #[trigger] strictly_best(run(es, qs1.take(j)), qs1[j]),
        0 <= k <= qs1.len(),
        k <= qs2.len(),
    ensures
        qs1.take(k) == qs2.take(k),
    decreases k,
{
    if k > 0 {
        let j = k - 1;
        lemma_runs_agree(es, limit, qs1, qs2, j);
        lemma_valid_prefix(es, qs1, j);
        lemma_valid_prefix(es, qs2, j);
        let s = run(es, qs1.take(j));
        assert(strictly_best(s, qs1[j]));
        assert(s.keys.contains(qs1[j]) && s.keys.contains(qs2[j]));
        assert(ranks_le(pair_counts(s), s.vocab, qs1[j], qs2[j]));
        assert(qs1[j] == qs2[j]);
        assert(qs1.take(k) == qs1.take(j).push(qs1[j]));
        assert(qs2.take(k) == qs2.take(j).push(qs2[j]));
    }
}

/// Training is determined by the words and the limit alone: two whole runs of
/// the same words with the same limit are the same run, whenever each pair the
/// first merges is the only best pair of its state (no other kept pair ties it
/// in both count and token bytes).
pub proof fn law_run_unique(es: Seq<Entry>, limit: nat, qs1: Seq<u32>, qs2: Seq<u32>)
    requires
        finished_run(es, limit, qs1),
        finished_run(es, limit, qs2),
        forall|k: int| 0 <= k < qs1.len() ==> #[trigger] strictly_best(run(es, qs1.take(k)), qs1[k]),
    ensures
        qs1 == qs2,
{
    let n: int = if qs1.len() < qs2.len() { qs1.len() as int } else { qs2.len() as int };
    lemma_runs_agree(es, limit, qs1, qs2, n);
    if qs1.len() < qs2.len() {
        lemma_valid_prefix(es, qs2, n);
        assert(qs1.take(n) == qs1);
        assert(run(es, qs1).keys.contains(qs2[n]));
    } else if qs2.len() < qs1.len() {
        lemma_valid_prefix(es, qs1, n);
        assert(qs2.take(n) == qs2);
        assert(run(es, qs2).keys.contains(qs1[n]));
    } else {
        assert(qs1.take(n) == qs1);
        assert(qs2.take(n) == qs2);
    }
}

} // verus!

verus! {

/// `w` with every `x` spelled out again as the pair `(a, b)`.
pub open spec fn unmerge(w: Seq<u16>, a: u16, b: u16, x: u16) -> Seq<u16>
    decreases w.len(),
{
    if w.len() == 0 {
        w
    } else if w[0] == x {
        seq![a, b] + unmerge(w.drop_first(), a, b, x)
    } else {
        seq![w[0]] + unmerge(w.drop_first(), a, b, x)
    }
}

/// Merging into an id the word does not hold can be undone: spelling the new id
/// out again as the pair gives the word back.
pub proof fn law_merge_undone(w: Seq<u16>, a: u16, b: u16, x: u16)
    requires
        forall|j: int| 0 <= j < w.len() ==> w[j] != x,
    ensures
        unmerge(merge(w, a, b, x), a, b, x) == w,
    decreases w.len(),
{
    if w.len() == 0 {
    } else if w.len() >= 2 && w[0] == a && w[1] == b {
        let m = merge(w.skip(2), a, b, x);
        law_merge_undone(w.skip(2), a, b, x);
        assert((seq![x] + m).drop_first() == m);
        assert(seq![a, b] + w.skip(2) == w);
    } else {
        let m = merge(w.skip(1), a, b, x);
        law_merge_undone(w.skip(1), a, b, x);
        assert((seq![w[0]] + m).drop_first() == m);
        assert(seq![w[0]] + w.skip(1) == w);
    }
}

/// Whether the words of weighted words are pairwise distinct.
pub open spec fn words_distinct(es: Seq<Entry>) -> bool {
    forall|i: int, j: int| 0 <= i < j < es.len() ==> #[trigger] es[i].0 != #[trigger] es[j].0
}

/// Every state a run reaches is a good one.
proof fn lemma_run_good(es: Seq<Entry>, qs: Seq<u32>)
    requires
        valid_run(es, qs),
        entries_below(es, 256),
        qs.len() <= 65280,
    ensures
        good_state(run(es, qs), weight(es)),
    decreases qs.len(),
{
    if qs.len() == 0 {
        lemma_initial_good(es);
    } else {
        lemma_run_good(es, qs.drop_last());
        law_run_vocab(es, qs.drop_last());
        lemma_step_good(run(es, qs.drop_last()), qs.last(), weight(es));
    }
}

/// A run keeps distinct words distinct: each merge makes a token that no word
/// holds yet, so no two different words are merged into the same one.
pub proof fn law_run_keeps_words_distinct(es: Seq<Entry>, qs: Seq<u32>)
    requires
        valid_run(es, qs),
        entries_below(es, 256),
        qs.len() <= 65280,
        words_distinct(es),
    ensures
        words_distinct(run(es, qs).entries),
    decreases qs.len(),
{
    if qs.len() > 0 {
        let s = run(es, qs.drop_last());
        law_run_keeps_words_distinct(es, qs.drop_last());
        lemma_run_good(es, qs.drop_last());
        law_run_vocab(es, qs.drop_last());
        let a = pair_hi(qs.last());
        let b = pair_lo(qs.last());
        let n = s.vocab.len();
        let x = n as u16;
        let t = run(es, qs).entries;
        assert forall|i: int, j: int| 0 <= i < j < t.len() implies #[trigger] t[i].0 != #[trigger] t[j].0 by {
            let wi = s.entries[i].0;
            let wj = s.entries[j].0;
            assert(ids_below(wi, n) && ids_below(wj, n));
            assert forall|k: int| 0 <= k < wi.len() implies wi[k] != x by {
                assert(wi[k] < n);
            }
            assert forall|k: int| 0 <= k < wj.len() implies wj[k] != x by {
                assert(wj[k] < n);
            }
            law_merge_undone(wi, a, b, x);
            law_merge_undone(wj, a, b, x);
            assert(t[i].0 == merge(wi, a, b, x));
            assert(t[j].0 == merge(wj, a, b, x));
            assert(wi != wj);
        }
    }
}

} // verus!

verus! {

/// Merging leaves no occurrence of the pair behind, when the new id is neither
/// of its ids: every adjacent `(a, b)` of the word is merged.
pub proof fn law_merge_leaves_no_pair(w: Seq<u16>, a: u16, b: u16, x: u16)
    requires
        x != a,
        x != b,
    ensures
        forall|j: int| 0 <= j < merge(w, a, b, x).len() - 1 ==> !(#[trigger] merge(w, a, b, x)[j] == a && merge(w, a, b, x)[j + 1]
            == b),
    decreases w.len(),
{
    let m = merge(w, a, b, x);
    if w.len() == 0 {
    } else if w.len() >= 2 && w[0] == a && w[1] == b {
        let r = merge(w.skip(2), a, b, x);
        law_merge_leaves_no_pair(w.skip(2), a, b, x);
        assert(m == seq![x] + r);
        assert forall|j: int| 0 <= j < m.len() - 1 implies !(#[trigger] m[j] == a && m[j + 1] == b) by {
            if j > 0 {
                assert(m[j] == r[j - 1] && m[j + 1] == r[j]);
            }
        }
    } else {
        let r = merge(w.skip(1), a, b, x);
        law_merge_leaves_no_pair(w.skip(1), a, b, x);
        lemma_merge_first(w.skip(1), a, b, x);
        assert(m == seq![w[0]] + r);
        assert forall|j: int| 0 <= j < m.len() - 1 implies !(#[trigger] m[j] == a && m[j + 1] == b) by {
            if j > 0 {
                assert(m[j] == r[j - 1] && m[j + 1] == r[j]);
            } else {
                assert(m[1] == r[0]);
                if w.skip(1).len() >= 2 && w.skip(1)[0] == a && w.skip(1)[1] == b {
                    assert(r[0] == x);
                } else {
                    assert(r[0] == w[1]);
                }
            }
        }
    }
}

} // verus!
