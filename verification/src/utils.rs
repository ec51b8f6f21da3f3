//! Training a byte-pair encoding: splitting a corpus at special tokens,
//! counting adjacent pairs in weighted words, and merging the most frequent
//! pair again and again.
use std::cmp::Ordering;
use std::collections::HashMap;
use vstd::prelude::*;

use crate::pairs::{
    added_events, after_site, ind, last_written, lemma_entries_push, lemma_entries_take, lemma_wsum_prefix, lemma_wsum_take, merge_all, removed_total,
    added_total, removes_any, adds_any, lemma_mul_ind, lemma_mul_zero, lemma_occ_prefix, lemma_occ_push,
    lemma_pack_unpack, lemma_total_prefix, lemma_total_weight, lemma_unpack_pack, lemma_delta_bounds, lemma_any_pos, entries_below, weight, pair_hi, pair_lo, merge, occ, occurs, pack, removed_events, site_added, site_removed,
    total, Entry,
};
use vstd::arithmetic::mul::{lemma_mul_inequality, lemma_mul_is_distributive_add};
use crate::error::CustomError;
use crate::file::{merges_view, tokens_view};
use crate::training::{
    byte_vocab, finished_run, good_state, words_distinct, initial_state, is_best_pair, law_run_vocab, lemma_initial_good, lemma_step_good,
    merge_limit, merge_step, pair_counts, run, run_merges, valid_run, TrainState,
};
use crate::types::{PackedPair, TokenBytes, TokenId, TokenIds};

pub use crate::split::{find_chunk_boundaries, find_pretoken_spans, find_special_tokens};

verus! {

broadcast use vstd::std_specs::hash::group_hash_axioms;

/// The count a map holds for a key, 0 when it holds none.
pub open spec fn count_of(m: Map<u32, usize>, k: u32) -> nat {
    if m.contains_key(k) {
        m[k] as nat
    } else {
        0
    }
}

/// Adds `amount` to the count of `k` (`*map.entry(k).or_insert(0) += amount`).
fn add_count(map: &mut HashMap<PackedPair, usize>, k: PackedPair, amount: usize)
    requires
        count_of(old(map)@, k) + amount <= usize::MAX,
    ensures
        final(map)@ == old(map)@.insert(k, (count_of(old(map)@, k) + amount) as usize),
{
    let current: usize = match map.get(&k) {
        Some(v) => *v,
        None => 0,
    };
    map.insert(k, current + amount);
}

/// Adds the counts of `source` into `target`.
pub fn merge_count_map(target: &mut HashMap<PackedPair, usize>, source: HashMap<PackedPair, usize>)
    requires
        forall|k: u32| count_of(old(target)@, k) + count_of(source@, k) <= usize::MAX,
    ensures
        final(target)@.dom() == old(target)@.dom() + source@.dom(),
        forall|k: u32| #[trigger] count_of(final(target)@, k) == count_of(old(target)@, k) + count_of(source@, k),
{
    let ghost t0 = target@;
    let ghost mut seen: Set<u32> = Set::empty();
    for (k, v) in it: source.iter()
        invariant
            forall|k: u32| count_of(t0, k) + count_of(source@, k) <= usize::MAX,
            it.seq().no_duplicates(),
            forall|i: int| 0 <= i < it.seq().len() ==> #[trigger] source@.contains_key(*it.seq()[i].0) && source@[*it.seq()[i].0] == *it.seq()[i].1,
            forall|k: u32| source@.contains_key(k) ==> it.seq().contains((&k, &source@[k])),
            seen == Set::new(|k: u32| exists|i: int| 0 <= i < it.index() && *it.seq()[i].0 == k),
            target@.dom() == t0.dom() + seen,
            forall|k: u32| #[trigger] count_of(target@, k) == count_of(t0, k) + (if seen.contains(k) { count_of(source@, k) } else { 0 }),
    {
        proof {
            let i = it.index() as int;
            assert((k, v) == it.seq()[i]);
            assert(!seen.contains(*k)) by {
                if seen.contains(*k) {
                    let j = choose|j: int| 0 <= j < i && *it.seq()[j].0 == *k;
                    assert(source@.contains_key(*it.seq()[j].0) && source@[*it.seq()[j].0] == *it.seq()[j].1);
                    assert(source@.contains_key(*it.seq()[i].0) && source@[*it.seq()[i].0] == *it.seq()[i].1);
                    assert(it.seq()[j] == it.seq()[i]);
                    assert(it.seq()[j] != it.seq()[i]);
                }
            }
        }
        let ghost tb = target@;
        add_count(target, *k, *v);
        proof {
            assert(source@.contains_key(*it.seq()[it.index() as int].0));
            assert(*v == source@[*k]);
            seen = seen.insert(*k);
            assert forall|q: u32| #[trigger] count_of(target@, q) == count_of(t0, q) + (if seen.contains(q) { count_of(source@, q) } else { 0 }) by {
                if q != *k {
                    assert(count_of(target@, q) == count_of(tb, q));
                }
            }
        }
    }
    proof {
        assert(seen =~= source@.dom());
    }
}

/// Turns two token ids into one key, the first in the high half.
pub fn pack_pair(hi: TokenId, lo: TokenId) -> (r: PackedPair)
    ensures
        r == pack(hi, lo),
{
    proof {
        lemma_pack_unpack(hi, lo);
    }
    assert(((hi as u32) << 16u32 | lo as u32) == hi as u32 * 65536 + lo as u32) by (bit_vector);
    (hi as u32) << 16 | lo as u32
}

/// Takes a key apart into the two token ids it packs.
pub fn unpack_pair(x: PackedPair) -> (r: [TokenId; 2])
    ensures
        r@ == seq![crate::pairs::pair_hi(x), crate::pairs::pair_lo(x)],
{
    assert((x >> 16u32) as u16 == x / 65536 && x as u16 == x % 65536) by (bit_vector);
    let r = [(x >> 16) as u16, x as u16];
    assert(r@ =~= seq![crate::pairs::pair_hi(x), crate::pairs::pair_lo(x)]);
    r
}

/// Pair-count changes made by merging a pair: the counts to take away from the
/// pair counts, and the counts to add.
pub struct PairCountDelta {
    pub removed: HashMap<PackedPair, usize>,
    pub added: HashMap<PackedPair, usize>,
}

/// Records one merge site of `(a, b)` into `x`, `m` times: the counts the site
/// takes away and the counts it adds.
#[verifier::rlimit(50)]
#[verifier::spinoff_prover]
fn record_site(
    count_delta: &mut PairCountDelta,
    left: Option<TokenId>,
    right: Option<TokenId>,
    a: TokenId,
    b: TokenId,
    x: TokenId,
    m: usize,
)
    requires
        forall|p: u32| count_of(old(count_delta).removed@, p) + m * site_removed(left, right, a, b, p) <= usize::MAX,
        forall|p: u32| count_of(old(count_delta).added@, p) + m * site_added(left, right, x, p) <= usize::MAX,
    ensures
        forall|p: u32| #[trigger] count_of(final(count_delta).removed@, p) == count_of(old(count_delta).removed@, p)
            + m * site_removed(left, right, a, b, p),
        forall|p: u32| #[trigger] count_of(final(count_delta).added@, p) == count_of(old(count_delta).added@, p)
            + m * site_added(left, right, x, p),
        forall|p: u32| #[trigger] final(count_delta).removed@.contains_key(p) <==> old(count_delta).removed@.contains_key(p)
            || site_removed(left, right, a, b, p) > 0,
        forall|p: u32| #[trigger] final(count_delta).added@.contains_key(p) <==> old(count_delta).added@.contains_key(p)
            || site_added(left, right, x, p) > 0,
{
    let ghost r0 = count_delta.removed@;
    let ghost a0 = count_delta.added@;
    let ghost mm = m as int;
    if let Some(l) = left {
        let k = pack_pair(l, a);
        proof {
            lemma_scale_site(mm, left, right, a, b, x, k);
        }
        add_count(&mut count_delta.removed, k, m);
        let k = pack_pair(l, x);
        proof {
            lemma_scale_site(mm, left, right, a, b, x, k);
        }
        add_count(&mut count_delta.added, k, m);
    }
    let ghost r1 = count_delta.removed@;
    let ghost a1 = count_delta.added@;
    proof {
        assert forall|p: u32| #[trigger] count_of(r1, p) == count_of(r0, p) + (if left is Some && pack(left->0, a) == p { mm } else { 0 })
            && (r1.contains_key(p) <==> r0.contains_key(p) || (left is Some && pack(left->0, a) == p)) by {}
        assert forall|p: u32| #[trigger] count_of(a1, p) == count_of(a0, p) + (if left is Some && pack(left->0, x) == p { mm } else { 0 })
            && (a1.contains_key(p) <==> a0.contains_key(p) || (left is Some && pack(left->0, x) == p)) by {}
    }
    if let Some(r) = right {
        let k = pack_pair(b, r);
        proof {
            lemma_scale_site(mm, left, right, a, b, x, k);
        }
        add_count(&mut count_delta.removed, k, m);
        let k = pack_pair(x, r);
        proof {
            lemma_scale_site(mm, left, right, a, b, x, k);
        }
        add_count(&mut count_delta.added, k, m);
    }
    let ghost r2 = count_delta.removed@;
    proof {
        assert forall|p: u32| #[trigger] count_of(r2, p) == count_of(r1, p) + (if right is Some && pack(b, right->0) == p { mm } else { 0 })
            && (r2.contains_key(p) <==> r1.contains_key(p) || (right is Some && pack(b, right->0) == p)) by {}
    }
    let k = pack_pair(a, b);
    proof {
        lemma_scale_site(mm, left, right, a, b, x, k);
    }
    add_count(&mut count_delta.removed, k, m);
    proof {
        assert forall|p: u32| #[trigger] count_of(count_delta.removed@, p) == count_of(r0, p) + m * site_removed(left, right, a, b, p) by {
            lemma_scale_site(mm, left, right, a, b, x, p);
        }
        assert forall|p: u32| #[trigger] count_of(count_delta.added@, p) == count_of(a0, p) + m * site_added(left, right, x, p) by {
            lemma_scale_site(mm, left, right, a, b, x, p);
        }
    }
}

/// `m` times the counts of one merge site, term by term.
proof fn lemma_scale_site(m: int, left: Option<u16>, right: Option<u16>, a: u16, b: u16, x: u16, p: u32)
    requires
        m >= 0,
    ensures
        m * site_removed(left, right, a, b, p) == (if left is Some && pack(left->0, a) == p { m } else { 0 })
            + (if right is Some && pack(b, right->0) == p { m } else { 0 }) + (if pack(a, b) == p { m } else { 0 }),
        m * site_added(left, right, x, p) == (if left is Some && pack(left->0, x) == p { m } else { 0 })
            + (if right is Some && pack(x, right->0) == p { m } else { 0 }),
        m * site_removed(left, right, a, b, p) >= (if left is Some && pack(left->0, a) == p { m } else { 0 }),
        m * site_removed(left, right, a, b, p) >= (if right is Some && pack(b, right->0) == p { m } else { 0 }),
        m * site_removed(left, right, a, b, p) >= (if pack(a, b) == p { m } else { 0 }),
        m * site_added(left, right, x, p) >= (if left is Some && pack(left->0, x) == p { m } else { 0 }),
        m * site_added(left, right, x, p) >= (if right is Some && pack(x, right->0) == p { m } else { 0 }),
{
    let i1 = ind(left is Some && pack(left->0, a) == p);
    let i2 = ind(right is Some && pack(b, right->0) == p);
    let i3 = ind(pack(a, b) == p);
    let h1 = ind(left is Some && pack(left->0, x) == p);
    let h2 = ind(right is Some && pack(x, right->0) == p);
    lemma_mul_is_distributive_add(m, (i1 + i2) as int, i3 as int);
    lemma_mul_is_distributive_add(m, i1 as int, i2 as int);
    lemma_mul_is_distributive_add(m, h1 as int, h2 as int);
}

/// Merges every occurrence of `pair` in `token` (read from the left) into
/// `new_id`, and records in `count_delta`, `multiplier` times each, the pair
/// counts the merge removes and adds.
#[verifier::rlimit(30)]
pub fn replace_pair_in_token(
    token: &mut TokenIds,
    pair: &[TokenId; 2],
    new_id: TokenId,
    multiplier: usize,
    count_delta: &mut PairCountDelta,
)
    requires
        forall|p: u32|
            count_of(old(count_delta).removed@, p) + multiplier * removed_events(
                None,
                old(token)@,
                pair@[0],
                pair@[1],
                new_id,
                p,
            ) <= usize::MAX,
        forall|p: u32|
            count_of(old(count_delta).added@, p) + multiplier * added_events(
                None,
                old(token)@,
                pair@[0],
                pair@[1],
                new_id,
                p,
            ) <= usize::MAX,
    ensures
        final(token)@ == merge(old(token)@, pair@[0], pair@[1], new_id),
        forall|p: u32|
            #[trigger] count_of(final(count_delta).removed@, p) == count_of(old(count_delta).removed@, p)
                + multiplier * removed_events(None, old(token)@, pair@[0], pair@[1], new_id, p),
        forall|p: u32|
            #[trigger] count_of(final(count_delta).added@, p) == count_of(old(count_delta).added@, p)
                + multiplier * added_events(None, old(token)@, pair@[0], pair@[1], new_id, p),
        forall|p: u32|
            #[trigger] final(count_delta).removed@.contains_key(p) <==> old(count_delta).removed@.contains_key(p)
                || removed_events(None, old(token)@, pair@[0], pair@[1], new_id, p) > 0,
        forall|p: u32|
            #[trigger] final(count_delta).added@.contains_key(p) <==> old(count_delta).added@.contains_key(p)
                || added_events(None, old(token)@, pair@[0], pair@[1], new_id, p) > 0,
{
    let ghost w = token@;
    let ghost a = pair@[0];
    let ghost b = pair@[1];
    let ghost x = new_id;
    let ghost m = multiplier as int;
    let ghost r0 = count_delta.removed@;
    let ghost a0 = count_delta.added@;
    proof {
        assert(w.skip(0) == w);
        assert(token@.take(0) + merge(w, a, b, x) == merge(w, a, b, x));
    }
    let mut read: usize = 0;
    let mut write: usize = 0;

    while read < token.len()
        invariant
            token@.len() == w.len(),
            write <= read <= w.len(),
            a == pair@[0],
            b == pair@[1],
            x == new_id,
            m == multiplier,
            forall|i: int| read <= i < w.len() ==> #[trigger] token@[i] == w[i],
            token@.take(write as int) + merge(w.skip(read as int), a, b, x) == merge(w, a, b, x),
            forall|p: u32|
                count_of(count_delta.removed@, p) + m * #[trigger] removed_events(
                    last_written(token@, write as int),
                    w.skip(read as int),
                    a,
                    b,
                    x,
                    p,
                ) == count_of(r0, p) + m * removed_events(None, w, a, b, x, p),
            forall|p: u32|
                count_of(count_delta.added@, p) + m * #[trigger] added_events(
                    last_written(token@, write as int),
                    w.skip(read as int),
                    a,
                    b,
                    x,
                    p,
                ) == count_of(a0, p) + m * added_events(None, w, a, b, x, p),
            forall|p: u32| count_of(r0, p) + m * #[trigger] removed_events(None, w, a, b, x, p) <= usize::MAX,
            forall|p: u32| count_of(a0, p) + m * #[trigger] added_events(None, w, a, b, x, p) <= usize::MAX,
            forall|p: u32|
                #[trigger] count_delta.removed@.contains_key(p) <==> r0.contains_key(p)
                    || removed_events(None, w, a, b, x, p) > removed_events(
                    last_written(token@, write as int),
                    w.skip(read as int),
                    a,
                    b,
                    x,
                    p,
                ),
            forall|p: u32|
                #[trigger] count_delta.added@.contains_key(p) <==> a0.contains_key(p)
                    || added_events(None, w, a, b, x, p) > added_events(
                    last_written(token@, write as int),
                    w.skip(read as int),
                    a,
                    b,
                    x,
                    p,
                ),
            forall|p: u32|
                #[trigger] removed_events(None, w, a, b, x, p) >= removed_events(
                    last_written(token@, write as int),
                    w.skip(read as int),
                    a,
                    b,
                    x,
                    p,
                ),
            forall|p: u32|
                #[trigger] added_events(None, w, a, b, x, p) >= added_events(
                    last_written(token@, write as int),
                    w.skip(read as int),
                    a,
                    b,
                    x,
                    p,
                ),
        decreases w.len() - read,
    {
        let ghost rest = w.skip(read as int);
        let ghost prev: Option<u16> = last_written(token@, write as int);
        let ghost cr = count_delta.removed@;
        let ghost ca = count_delta.added@;
        let ghost tok = token@;
        let ghost old_write = write as int;
        if read + 1 < token.len() && token[read] == pair[0] && token[read + 1] == pair[1] {
            let ghost tail = rest.skip(2);
            let left = if write > 0 { Some(token[write - 1]) } else { None };
            let right = if read + 2 < token.len() { Some(token[read + 2]) } else { None };
            proof {
                assert(tail == w.skip(read + 2));
                assert(right == after_site(rest));
                assert(left == prev);
                assert forall|p: u32|
                    #[trigger] removed_events(prev, rest, a, b, x, p) == site_removed(prev, after_site(rest), a, b, p)
                        + removed_events(Some(x), tail, a, b, x, p)
                        && added_events(prev, rest, a, b, x, p) == site_added(prev, after_site(rest), x, p)
                        + added_events(Some(x), tail, a, b, x, p) by {}
                assert forall|p: u32|
                    count_of(cr, p) + m * #[trigger] site_removed(left, right, a, b, p) <= usize::MAX by {
                    let here = removed_events(prev, rest, a, b, x, p);
                    assert(here == site_removed(prev, after_site(rest), a, b, p) + removed_events(Some(x), tail, a, b, x, p));
                    assert(count_of(cr, p) + m * here == count_of(r0, p) + m * removed_events(None, w, a, b, x, p));
                    assert(count_of(r0, p) + m * removed_events(None, w, a, b, x, p) <= usize::MAX);
                    assert(removed_events(None, w, a, b, x, p) >= here);
                    lemma_mul_inequality(
                        site_removed(left, right, a, b, p) as int,
                        removed_events(prev, rest, a, b, x, p) as int,
                        m,
                    );
                    lemma_mul_inequality(
                        removed_events(prev, rest, a, b, x, p) as int,
                        removed_events(None, w, a, b, x, p) as int,
                        m,
                    );
                }
                assert forall|p: u32| count_of(ca, p) + m * #[trigger] site_added(left, right, x, p) <= usize::MAX by {
                    let here = added_events(prev, rest, a, b, x, p);
                    assert(here == site_added(prev, after_site(rest), x, p) + added_events(Some(x), tail, a, b, x, p));
                    assert(count_of(ca, p) + m * here == count_of(a0, p) + m * added_events(None, w, a, b, x, p));
                    assert(count_of(a0, p) + m * added_events(None, w, a, b, x, p) <= usize::MAX);
                    assert(added_events(None, w, a, b, x, p) >= here);
                    lemma_mul_inequality(
                        site_added(left, right, x, p) as int,
                        added_events(prev, rest, a, b, x, p) as int,
                        m,
                    );
                    lemma_mul_inequality(
                        added_events(prev, rest, a, b, x, p) as int,
                        added_events(None, w, a, b, x, p) as int,
                        m,
                    );
                }
            }
            record_site(count_delta, left, right, pair[0], pair[1], new_id, multiplier);
            token.set(write, new_id);
            read += 2;
            write += 1;
            proof {
                assert(token@.take(write as int) == tok.take(old_write).push(x));
                assert(merge(rest, a, b, x) == seq![x] + merge(tail, a, b, x));
                assert(last_written(token@, write as int) == Some(x));
                assert forall|p: u32|
                    count_of(count_delta.removed@, p) + m * #[trigger] removed_events(Some(x), tail, a, b, x, p)
                        == count_of(r0, p) + m * removed_events(None, w, a, b, x, p) by {
                    lemma_mul_is_distributive_add(
                        m,
                        site_removed(prev, after_site(rest), a, b, p) as int,
                        removed_events(Some(x), tail, a, b, x, p) as int,
                    );
                }
                assert forall|p: u32|
                    count_of(count_delta.added@, p) + m * #[trigger] added_events(Some(x), tail, a, b, x, p)
                        == count_of(a0, p) + m * added_events(None, w, a, b, x, p) by {
                    lemma_mul_is_distributive_add(
                        m,
                        site_added(prev, after_site(rest), x, p) as int,
                        added_events(Some(x), tail, a, b, x, p) as int,
                    );
                }
            }
        } else {
            let v = token[read];
            token.set(write, v);
            read += 1;
            write += 1;
            proof {
                assert(token@.take(write as int) == tok.take(old_write).push(v));
                assert(merge(rest, a, b, x) == seq![v] + merge(rest.skip(1), a, b, x));
                assert(rest.skip(1) == w.skip(read as int));
                assert(last_written(token@, write as int) == Some(v));
                assert forall|p: u32|
                    #[trigger] removed_events(prev, rest, a, b, x, p) == removed_events(Some(v), rest.skip(1), a, b, x, p)
                        && added_events(prev, rest, a, b, x, p) == added_events(Some(v), rest.skip(1), a, b, x, p) by {}
            }
        }
    }
    let ghost lw = last_written(token@, write as int);
    token.truncate(write);
    proof {
        assert(w.skip(read as int) == Seq::<u16>::empty());
        assert forall|p: u32| #[trigger] count_of(count_delta.removed@, p) == count_of(r0, p) + m * removed_events(None, w, a, b, x, p) by {
            let e = removed_events(lw, w.skip(read as int), a, b, x, p);
            assert(e == 0);
            assert(m * e == 0) by (nonlinear_arith)
                requires
                    e == 0,
            ;
        }
        assert forall|p: u32| #[trigger] count_of(count_delta.added@, p) == count_of(a0, p) + m * added_events(None, w, a, b, x, p) by {
            let e = added_events(lw, w.skip(read as int), a, b, x, p);
            assert(e == 0);
            assert(m * e == 0) by (nonlinear_arith)
                requires
                    e == 0,
            ;
        }
        assert(token@ == merge(w, a, b, x));
    }
}

/// The weighted words of a list of token ids and their counts.
pub open spec fn entries_of(v: Seq<(TokenIds, usize)>) -> Seq<Entry> {
    v.map_values(|e: (TokenIds, usize)| (e.0@, e.1 as nat))
}

/// The weighted words of a list of borrowed token ids and their counts.
pub open spec fn slices_of<'a>(v: Seq<(&'a [TokenId], usize)>) -> Seq<Entry> {
    v.map_values(|e: (&'a [TokenId], usize)| (e.0@, e.1 as nat))
}

/// Counts every adjacent pair of every word, each occurrence as often as its
/// word's count.
fn count_pairs_internal(all_pairs: &[(&[TokenId], usize)]) -> (count_map: HashMap<PackedPair, usize>)
    requires
        forall|p: u32| total(slices_of(all_pairs@), p) <= usize::MAX,
    ensures
        forall|p: u32| #[trigger] count_of(count_map@, p) == total(slices_of(all_pairs@), p),
        forall|p: u32| #[trigger] count_map@.contains_key(p) <==> occurs(slices_of(all_pairs@), p),
{
    let mut count_map: HashMap<PackedPair, usize> = HashMap::new();
    let ghost es = slices_of(all_pairs@);
    for i in 0..all_pairs.len()
        invariant
            es == slices_of(all_pairs@),
            forall|p: u32| total(es, p) <= usize::MAX,
            forall|p: u32| #[trigger] count_of(count_map@, p) == total(es.take(i as int), p),
            forall|p: u32| #[trigger] count_map@.contains_key(p) <==> occurs(es.take(i as int), p),
    {
        let key: &[TokenId] = all_pairs[i].0;
        let count: usize = all_pairs[i].1;
        let ghost w = key@;
        assert(es[i as int] == (w, count as nat));
        proof {
            assert forall|p: u32| (w.len() >= 2 ==> #[trigger] occ(w.take(1), p) == 0) && (w.len() < 2 ==> occ(w, p) == 0)
                && (w.len() >= 2 ==> count * occ(w.take(1), p) == 0) && (w.len() < 2 ==> count * occ(w, p) == 0) by {
                if w.len() < 2 {
                    lemma_mul_zero(count as int, occ(w, p) as int);
                } else {
                    assert(w.take(1).len() == 1);
                    lemma_mul_zero(count as int, occ(w.take(1), p) as int);
                }
            }
        }
        if key.len() >= 2 {
            let mut j: usize = 0;
            while j < key.len() - 1
                invariant
                    j + 1 <= w.len(),
                    es == slices_of(all_pairs@),
                    i < es.len(),
                    es[i as int] == (w, count as nat),
                    w == key@,
                    w.len() >= 2,
                    forall|p: u32| total(es, p) <= usize::MAX,
                    forall|p: u32| #[trigger] count_of(count_map@, p) == total(es.take(i as int), p)
                        + count * occ(w.take(j + 1), p),
                    forall|p: u32| #[trigger] count_map@.contains_key(p) <==> occurs(es.take(i as int), p)
                        || occ(w.take(j + 1), p) > 0,
                decreases w.len() - j,
            {
                let x = pack_pair(key[j], key[j + 1]);
                let ghost before = count_map@;
                proof {
                    assert(w.take(j + 2) =~= w.take(j + 1).push(w[j + 1]));
                    assert forall|p: u32| #[trigger] occ(w.take(j + 2), p) == occ(w.take(j + 1), p) + ind(x == p) by {
                        lemma_occ_push(w.take(j + 1), w[j + 1], p);
                    }
                    lemma_occ_prefix(w, j + 2, x);
                    lemma_entries_take(es, i as int, x);
                    lemma_total_prefix(es, i + 1, x);
                    lemma_mul_is_distributive_add(count as int, occ(w.take(j + 1), x) as int, 1);
                    lemma_mul_inequality(occ(w.take(j + 2), x) as int, occ(w, x) as int, count as int);
                    assert(count * occ(w.take(j + 2), x) == occ(w.take(j + 2), x) * count) by (nonlinear_arith);
                    assert(count * occ(w, x) == occ(w, x) * count) by (nonlinear_arith);
                }
                add_count(&mut count_map, x, count);
                proof {
                    assert forall|p: u32| #[trigger] count_of(count_map@, p) == total(es.take(i as int), p)
                        + count * occ(w.take(j + 2), p) by {
                        let o1 = occ(w.take(j + 1), p);
                        let o2 = occ(w.take(j + 2), p);
                        assert(o2 == o1 + ind(x == p));
                        assert(count_of(count_map@, p) == count_of(before, p) + (if x == p { count as int } else { 0 }));
                        assert(count_of(before, p) == total(es.take(i as int), p) + count * o1);
                        lemma_mul_is_distributive_add(count as int, o1 as int, ind(x == p) as int);
                        lemma_mul_ind(count as int, x == p);
                    }
                }
                j += 1;
            }
            proof {
                assert(w.take(j + 1) =~= w);
                assert forall|p: u32| #[trigger] count_of(count_map@, p) == total(es.take(i as int), p) + count * occ(w, p) by {
                    assert(w.take(j + 1) == w);
                }
            }
        }
        proof {
            assert forall|p: u32| #[trigger] count_of(count_map@, p) == total(es.take(i as int), p) + count * occ(w, p) by {
                if w.len() < 2 {
                    assert(occ(w, p) == 0);
                    lemma_mul_zero(count as int, occ(w, p) as int);
                }
            }
            assert forall|p: u32| #[trigger] count_of(count_map@, p) == total(es.take(i + 1), p) by {
                lemma_entries_take(es, i as int, p);
                assert(es[i as int].1 == count && es[i as int].0 == w);
            }
            assert forall|p: u32| #[trigger] count_map@.contains_key(p) <==> occurs(es.take(i + 1), p) by {
                lemma_entries_take(es, i as int, p);
            }
        }
    }
    proof {
        assert(es.take(all_pairs@.len() as int) =~= es);
    }
    count_map
}

/// Counts every adjacent pair of the words, each occurrence as often as its
/// word's count: `None` when no word has two ids.
fn count_pairs(entries: &[(TokenIds, usize)], threads: usize) -> (r: Result<Option<HashMap<PackedPair, usize>>, CustomError>)
    requires
        forall|p: u32| total(entries_of(entries@), p) <= usize::MAX,
    ensures
        r matches Ok(found) && (found is None <==> forall|i: int| 0 <= i < entries@.len() ==> #[trigger] entries@[i].0.len() < 2),
        r matches Ok(Some(count_map)) ==> forall|p: u32| #[trigger] count_of(count_map@, p) == total(entries_of(entries@), p),
        r matches Ok(Some(count_map)) ==> forall|p: u32| #[trigger] count_map@.contains_key(p) <==> occurs(entries_of(entries@), p),
{
    let ghost es = entries_of(entries@);
    let mut all_pairs: Vec<(&[TokenId], usize)> = Vec::new();
    for i in 0..entries.len()
        invariant
            es == entries_of(entries@),
            forall|p: u32| #[trigger] total(slices_of(all_pairs@), p) == total(es.take(i as int), p),
            forall|p: u32| #[trigger] occurs(slices_of(all_pairs@), p) == occurs(es.take(i as int), p),
            all_pairs@.len() == 0 <==> forall|k: int| 0 <= k < i ==> #[trigger] entries@[k].0.len() < 2,
    {
        let key: &TokenIds = &entries[i].0;
        let count: usize = entries[i].1;
        let ghost before = all_pairs@;
        proof {
            assert(es[i as int] == (key@, count as nat));
        }
        if key.len() >= 2 {
            all_pairs.push((key.as_slice(), count));
            proof {
                assert(slices_of(all_pairs@) =~= slices_of(before).push((key@, count as nat)));
            }
        }
        proof {
            assert forall|p: u32| #[trigger] total(slices_of(all_pairs@), p) == total(es.take(i + 1), p) by {
                lemma_entries_take(es, i as int, p);
                if key.len() >= 2 {
                    lemma_entries_push(slices_of(before), (key@, count as nat), p);
                } else {
                    lemma_mul_zero(count as int, occ(key@, p) as int);
                }
            }
            assert forall|p: u32| #[trigger] occurs(slices_of(all_pairs@), p) == occurs(es.take(i + 1), p) by {
                lemma_entries_take(es, i as int, p);
                if key.len() >= 2 {
                    lemma_entries_push(slices_of(before), (key@, count as nat), p);
                }
            }
        }
    }
    proof {
        assert(es.take(entries@.len() as int) =~= es);
    }
    if all_pairs.len() == 0 {
        return Ok(None);
    }
    let _ = threads;
    Ok(Some(count_pairs_internal(&all_pairs)))
}

/// Merges `pair` into `new_id` in every word, and gathers the pair counts the
/// merges take away and add, each word counting as often as its count.
fn replace_pair_in_freq_map(
    entries: &mut Vec<(TokenIds, usize)>,
    pair: &[TokenId; 2],
    new_id: TokenId,
    threads: usize,
) -> (r: Result<PairCountDelta, CustomError>)
    requires
        forall|p: u32| removed_total(entries_of(old(entries)@), pair@[0], pair@[1], new_id, p) <= usize::MAX,
        forall|p: u32| added_total(entries_of(old(entries)@), pair@[0], pair@[1], new_id, p) <= usize::MAX,
    ensures
        entries_of(final(entries)@) == merge_all(entries_of(old(entries)@), pair@[0], pair@[1], new_id),
        r matches Ok(delta) && (forall|p: u32| #[trigger] count_of(delta.removed@, p)
            == removed_total(entries_of(old(entries)@), pair@[0], pair@[1], new_id, p)),
        r matches Ok(delta) && (forall|p: u32| #[trigger] count_of(delta.added@, p)
            == added_total(entries_of(old(entries)@), pair@[0], pair@[1], new_id, p)),
        r matches Ok(delta) && (forall|p: u32| #[trigger] delta.removed@.contains_key(p)
            <==> removes_any(entries_of(old(entries)@), pair@[0], pair@[1], new_id, p)),
        r matches Ok(delta) && (forall|p: u32| #[trigger] delta.added@.contains_key(p)
            <==> adds_any(entries_of(old(entries)@), pair@[0], pair@[1], new_id, p)),
{
    let ghost es = entries_of(entries@);
    let ghost a = pair@[0];
    let ghost b = pair@[1];
    let ghost x = new_id;
    let mut delta = PairCountDelta { removed: HashMap::new(), added: HashMap::new() };
    let _ = threads;
    let n = entries.len();
    for i in 0..n
        invariant
            n == entries@.len(),
            es.len() == n,
            a == pair@[0],
            b == pair@[1],
            x == new_id,
            forall|k: int| 0 <= k < i ==> #[trigger] entries_of(entries@)[k] == (merge(es[k].0, a, b, x), es[k].1),
            forall|k: int| i <= k < n ==> #[trigger] entries_of(entries@)[k] == es[k],
            forall|p: u32| removed_total(es, a, b, x, p) <= usize::MAX,
            forall|p: u32| added_total(es, a, b, x, p) <= usize::MAX,
            forall|p: u32| #[trigger] count_of(delta.removed@, p) == removed_total(es.take(i as int), a, b, x, p),
            forall|p: u32| #[trigger] count_of(delta.added@, p) == added_total(es.take(i as int), a, b, x, p),
            forall|p: u32| #[trigger] delta.removed@.contains_key(p) <==> removes_any(es.take(i as int), a, b, x, p),
            forall|p: u32| #[trigger] delta.added@.contains_key(p) <==> adds_any(es.take(i as int), a, b, x, p),
    {
        let count: usize = entries[i].1;
        let ghost w = entries@[i as int].0@;
        proof {
            assert(entries_of(entries@)[i as int] == es[i as int]);
            assert(es[i as int] == (w, count as nat));
            assert forall|p: u32| #[trigger] removed_total(es.take(i + 1), a, b, x, p)
                == removed_total(es.take(i as int), a, b, x, p) + count * removed_events(None, w, a, b, x, p) by {
                lemma_wsum_take(es, i as int, |w: Seq<u16>| removed_events(None, w, a, b, x, p));
            }
            assert forall|p: u32| #[trigger] removes_any(es.take(i + 1), a, b, x, p) == (removes_any(es.take(i as int), a, b, x, p)
                    || removed_events(None, w, a, b, x, p) > 0) by {
                lemma_wsum_take(es, i as int, |w: Seq<u16>| removed_events(None, w, a, b, x, p));
            }
            assert forall|p: u32| #[trigger] added_total(es.take(i + 1), a, b, x, p)
                == added_total(es.take(i as int), a, b, x, p) + count * added_events(None, w, a, b, x, p) by {
                lemma_wsum_take(es, i as int, |w: Seq<u16>| added_events(None, w, a, b, x, p));
            }
            assert forall|p: u32| #[trigger] adds_any(es.take(i + 1), a, b, x, p) == (adds_any(es.take(i as int), a, b, x, p)
                    || added_events(None, w, a, b, x, p) > 0) by {
                lemma_wsum_take(es, i as int, |w: Seq<u16>| added_events(None, w, a, b, x, p));
            }
            assert forall|p: u32| #[trigger] removed_total(es.take(i + 1), a, b, x, p) <= usize::MAX by {
                lemma_wsum_prefix(es, i + 1, |w: Seq<u16>| removed_events(None, w, a, b, x, p));
                assert(removed_total(es, a, b, x, p) <= usize::MAX);
            }
            assert forall|p: u32| #[trigger] added_total(es.take(i + 1), a, b, x, p) <= usize::MAX by {
                lemma_wsum_prefix(es, i + 1, |w: Seq<u16>| added_events(None, w, a, b, x, p));
                assert(added_total(es, a, b, x, p) <= usize::MAX);
            }
            assert forall|p: u32| count_of(delta.removed@, p) + count * #[trigger] removed_events(None, w, a, b, x, p)
                <= usize::MAX by {
                assert(removed_total(es.take(i + 1), a, b, x, p) <= usize::MAX);
            }
            assert forall|p: u32| count_of(delta.added@, p) + count * #[trigger] added_events(None, w, a, b, x, p)
                <= usize::MAX by {
                assert(added_total(es.take(i + 1), a, b, x, p) <= usize::MAX);
            }
        }
        let ghost before = entries@;
        replace_pair_in_token(&mut entries[i].0, pair, new_id, count, &mut delta);
        proof {
            assert forall|k: int| 0 <= k < n && k != i implies #[trigger] entries_of(entries@)[k] == entries_of(before)[k] by {
                assert(entries@[k] == before[k]);
            }
            assert(entries_of(entries@)[i as int] == (merge(es[i as int].0, a, b, x), es[i as int].1));
        }
    }
    proof {
        assert(es.take(n as int) =~= es);
        assert(entries_of(entries@) =~= merge_all(es, a, b, x));
    }
    Ok(delta)
}

/// The count of a key after taking `del` away and adding `add`.
pub open spec fn applied_count(c: nat, del: nat, add: nat) -> int {
    c + add - del
}

/// Whether a key stays in a count map after taking `del` away and adding `add`:
/// it stays as it was when both are equal, it goes when its count reaches 0, and
/// it is there when more is added than taken away.
pub open spec fn keeps_key(present: bool, c: nat, del: nat, add: nat) -> bool {
    if del == add {
        present
    } else if del > add {
        applied_count(c, del, add) > 0
    } else {
        true
    }
}

/// Applies the changes for one key.
fn apply_key(all_pairs: &mut HashMap<PackedPair, usize>, k: PackedPair, del: usize, add: usize)
    requires
        del > add ==> old(all_pairs)@.contains_key(k) && count_of(old(all_pairs)@, k) >= del - add,
        applied_count(count_of(old(all_pairs)@, k), del as nat, add as nat) <= usize::MAX,
    ensures
        count_of(final(all_pairs)@, k) == applied_count(count_of(old(all_pairs)@, k), del as nat, add as nat),
        final(all_pairs)@.contains_key(k) == keeps_key(
            old(all_pairs)@.contains_key(k),
            count_of(old(all_pairs)@, k),
            del as nat,
            add as nat,
        ),
        forall|p: u32| p != k ==> #[trigger] final(all_pairs)@.contains_key(p) == old(all_pairs)@.contains_key(p)
            && count_of(final(all_pairs)@, p) == count_of(old(all_pairs)@, p),
{
    if del == add {
    } else if del > add {
        let current: usize = match all_pairs.get(&k) {
            Some(c) => *c,
            None => 0,
        };
        let count = current - (del - add);
        if count == 0 {
            all_pairs.remove(&k);
        } else {
            all_pairs.insert(k, count);
        }
    } else {
        add_count(all_pairs, k, add - del);
    }
}

/// Applies the pair-count changes of a merge to the pair counts: each key's
/// count gains what was added and loses what was taken away, and a key whose
/// count reaches 0 by the change is removed.
fn apply_count_delta(all_pairs: &mut HashMap<PackedPair, usize>, delta: PairCountDelta)
    requires
        forall|p: u32| #![trigger count_of(delta.removed@, p)]
            count_of(delta.removed@, p) > count_of(delta.added@, p) ==> old(all_pairs)@.contains_key(p)
                && count_of(old(all_pairs)@, p) >= count_of(delta.removed@, p) - count_of(delta.added@, p),
        forall|p: u32| #![trigger count_of(delta.removed@, p)]
            applied_count(count_of(old(all_pairs)@, p), count_of(delta.removed@, p), count_of(delta.added@, p))
                <= usize::MAX,
    ensures
        forall|p: u32| #[trigger] count_of(final(all_pairs)@, p) == applied_count(
            count_of(old(all_pairs)@, p),
            count_of(delta.removed@, p),
            count_of(delta.added@, p),
        ),
        forall|p: u32| #[trigger] final(all_pairs)@.contains_key(p) == keeps_key(
            old(all_pairs)@.contains_key(p),
            count_of(old(all_pairs)@, p),
            count_of(delta.removed@, p),
            count_of(delta.added@, p),
        ),
{
    let ghost m0 = all_pairs@;
    let ghost rem = delta.removed@;
    let ghost add = delta.added@;
    let ghost mut done: Set<u32> = Set::empty();
    for (k, v) in it: delta.removed.iter()
        invariant
            rem == delta.removed@,
            add == delta.added@,
            forall|p: u32| #![trigger count_of(rem, p)]
                count_of(rem, p) > count_of(add, p) ==> m0.contains_key(p) && count_of(m0, p) >= count_of(rem, p)
                    - count_of(add, p),
            forall|p: u32| #![trigger count_of(rem, p)]
                applied_count(count_of(m0, p), count_of(rem, p), count_of(add, p)) <= usize::MAX,
            it.seq().no_duplicates(),
            forall|i: int| 0 <= i < it.seq().len() ==> #[trigger] rem.contains_key(*it.seq()[i].0) && rem[*it.seq()[i].0] == *it.seq()[i].1,
            forall|p: u32| rem.contains_key(p) ==> it.seq().contains((&p, &rem[p])),
            done == Set::new(|p: u32| exists|i: int| 0 <= i < it.index() && *it.seq()[i].0 == p),
            forall|p: u32| #[trigger] count_of(all_pairs@, p) == if done.contains(p) {
                applied_count(count_of(m0, p), count_of(rem, p), count_of(add, p))
            } else {
                count_of(m0, p) as int
            },
            forall|p: u32| #[trigger] all_pairs@.contains_key(p) == if done.contains(p) {
                keeps_key(m0.contains_key(p), count_of(m0, p), count_of(rem, p), count_of(add, p))
            } else {
                m0.contains_key(p)
            },
    {
        let key: PackedPair = *k;
        proof {
            let i = it.index() as int;
            assert((k, v) == it.seq()[i]);
            assert(!done.contains(key)) by {
                if done.contains(key) {
                    let j = choose|j: int| 0 <= j < i && *it.seq()[j].0 == key;
                    assert(rem.contains_key(*it.seq()[j].0) && rem[*it.seq()[j].0] == *it.seq()[j].1);
                    assert(rem.contains_key(*it.seq()[i].0) && rem[*it.seq()[i].0] == *it.seq()[i].1);
                    assert(it.seq()[j] == it.seq()[i]);
                }
            }
            assert(rem.contains_key(*it.seq()[i].0));
        }
        let d: usize = *v;
        let a: usize = match delta.added.get(&key) {
            Some(x) => *x,
            None => 0,
        };
        proof {
            assert(count_of(rem, key) == d);
            assert(count_of(add, key) == a);
            assert(count_of(all_pairs@, key) == count_of(m0, key));
        }
        apply_key(all_pairs, key, d, a);
        proof {
            done = done.insert(key);
        }
    }
    proof {
        assert(done =~= rem.dom());
    }
    for (k, v) in it: delta.added.iter()
        invariant
            rem == delta.removed@,
            add == delta.added@,
            forall|p: u32| #![trigger count_of(rem, p)]
                count_of(rem, p) > count_of(add, p) ==> m0.contains_key(p) && count_of(m0, p) >= count_of(rem, p)
                    - count_of(add, p),
            forall|p: u32| #![trigger count_of(rem, p)]
                applied_count(count_of(m0, p), count_of(rem, p), count_of(add, p)) <= usize::MAX,
            it.seq().no_duplicates(),
            forall|i: int| 0 <= i < it.seq().len() ==> #[trigger] add.contains_key(*it.seq()[i].0) && add[*it.seq()[i].0] == *it.seq()[i].1,
            forall|p: u32| add.contains_key(p) ==> it.seq().contains((&p, &add[p])),
            done == rem.dom() + Set::new(|p: u32| exists|i: int| 0 <= i < it.index() && *it.seq()[i].0 == p),
            forall|p: u32| #[trigger] count_of(all_pairs@, p) == if done.contains(p) {
                applied_count(count_of(m0, p), count_of(rem, p), count_of(add, p))
            } else {
                count_of(m0, p) as int
            },
            forall|p: u32| #[trigger] all_pairs@.contains_key(p) == if done.contains(p) {
                keeps_key(m0.contains_key(p), count_of(m0, p), count_of(rem, p), count_of(add, p))
            } else {
                m0.contains_key(p)
            },
    {
        let key: PackedPair = *k;
        let ghost seen = Set::new(|p: u32| exists|i: int| 0 <= i < it.index() && *it.seq()[i].0 == p);
        proof {
            let i = it.index() as int;
            assert((k, v) == it.seq()[i]);
            assert(!seen.contains(key)) by {
                if seen.contains(key) {
                    let j = choose|j: int| 0 <= j < i && *it.seq()[j].0 == key;
                    assert(add.contains_key(*it.seq()[j].0) && add[*it.seq()[j].0] == *it.seq()[j].1);
                    assert(add.contains_key(*it.seq()[i].0) && add[*it.seq()[i].0] == *it.seq()[i].1);
                    assert(it.seq()[j] == it.seq()[i]);
                }
            }
            assert(add.contains_key(*it.seq()[i].0));
        }
        if !delta.removed.contains_key(&key) {
            let a: usize = *v;
            proof {
                assert(count_of(rem, key) == 0);
                assert(count_of(add, key) == a);
                assert(!done.contains(key));
                assert(count_of(all_pairs@, key) == count_of(m0, key));
            }
            apply_key(all_pairs, key, 0, a);
        }
        proof {
            done = done.insert(key);
            let i = it.index() as int;
            assert(Set::new(|p: u32| exists|j: int| 0 <= j < i + 1 && *it.seq()[j].0 == p) =~= seen.insert(key)) by {
                assert(*it.seq()[i].0 == key);
            }
        }
    }
    proof {
        assert(done =~= rem.dom() + add.dom());
    }
}

/// How two byte strings are ordered: negative when `a` comes first, 0 when they
/// are equal, positive when `b` comes first. Bytes are compared from the front,
/// and a proper prefix comes first.
pub open spec fn bytes_order(a: Seq<u8>, b: Seq<u8>) -> int
    decreases a.len(),
{
    if a.len() == 0 {
        if b.len() == 0 {
            0
        } else {
            -1
        }
    } else if b.len() == 0 {
        1
    } else if a[0] < b[0] {
        -1
    } else if a[0] > b[0] {
        1
    } else {
        bytes_order(a.drop_first(), b.drop_first())
    }
}

/// How two pairs of byte strings are ordered: by their first strings, then by
/// their second.
pub open spec fn tuple_order(a0: Seq<u8>, a1: Seq<u8>, b0: Seq<u8>, b1: Seq<u8>) -> int {
    if bytes_order(a0, b0) != 0 {
        bytes_order(a0, b0)
    } else {
        bytes_order(a1, b1)
    }
}

/// Whether an ordering stands for a sign.
pub open spec fn ordering_is(r: Ordering, sign: int) -> bool {
    &&& (r == Ordering::Less) == (sign < 0)
    &&& (r == Ordering::Equal) == (sign == 0)
    &&& (r == Ordering::Greater) == (sign > 0)
}

/// The sign of the order of two byte strings, found byte by byte from the front.
fn bytes_sign(a: &TokenBytes, b: &TokenBytes) -> (r: i8)
    ensures
        r == bytes_order(a@, b@),
        -1 <= r <= 1,
{
    let n = if a.len() < b.len() { a.len() } else { b.len() };
    let mut i: usize = 0;
    proof {
        assert(a@.skip(0) =~= a@);
        assert(b@.skip(0) =~= b@);
    }
    while i < n
        invariant
            n <= a.len(),
            n <= b.len(),
            i <= n,
            n == a.len() || n == b.len(),
            a@.subrange(0, i as int) == b@.subrange(0, i as int),
            bytes_order(a@, b@) == bytes_order(a@.skip(i as int), b@.skip(i as int)),
        decreases n - i,
    {
        let x = a[i];
        let y = b[i];
        proof {
            let sa = a@.skip(i as int);
            let sb = b@.skip(i as int);
            assert(sa[0] == x && sb[0] == y);
            assert(sa.drop_first() =~= a@.skip(i + 1));
            assert(sb.drop_first() =~= b@.skip(i + 1));
        }
        if x < y {
            return -1;
        } else if x > y {
            return 1;
        }
        proof {
            assert(a@.subrange(0, i + 1) =~= a@.subrange(0, i as int).push(x));
            assert(b@.subrange(0, i + 1) =~= b@.subrange(0, i as int).push(y));
        }
        i += 1;
    }
    proof {
        assert(a@.skip(i as int).len() == a.len() - i);
        assert(b@.skip(i as int).len() == b.len() - i);
    }
    if a.len() < b.len() {
        -1
    } else if a.len() > b.len() {
        1
    } else {
        0
    }
}

/// Compares two byte strings, byte by byte from the front.
pub fn compare_bytes(a: &TokenBytes, b: &TokenBytes) -> (r: Ordering)
    ensures
        ordering_is(r, bytes_order(a@, b@)),
{
    let sign = bytes_sign(a, b);
    if sign < 0 {
        Ordering::Less
    } else if sign > 0 {
        Ordering::Greater
    } else {
        Ordering::Equal
    }
}

/// Compares two pairs of byte strings: by their first strings, then by their second.
pub fn cmp_tuple<'a>(a: (&'a TokenBytes, &'a TokenBytes), b: (&'a TokenBytes, &'a TokenBytes)) -> (r: Ordering)
    ensures
        ordering_is(r, tuple_order(a.0@, a.1@, b.0@, b.1@)),
{
    match compare_bytes(a.0, b.0) {
        Ordering::Equal => compare_bytes(a.1, b.1),
        Ordering::Less => Ordering::Less,
        Ordering::Greater => Ordering::Greater,
    }
}

/// The order of byte strings is antisymmetric.
pub proof fn lemma_bytes_order_antisym(a: Seq<u8>, b: Seq<u8>)
    ensures
        bytes_order(a, b) == -bytes_order(b, a),
        bytes_order(a, b) == 0 <==> a == b,
    decreases a.len(),
{
    if a.len() > 0 && b.len() > 0 && a[0] == b[0] {
        lemma_bytes_order_antisym(a.drop_first(), b.drop_first());
        if a.drop_first() == b.drop_first() {
            assert(a =~= seq![a[0]] + a.drop_first());
            assert(b =~= seq![b[0]] + b.drop_first());
        }
    } else if a.len() > 0 && b.len() > 0 {
        assert(a[0] != b[0]);
    } else if a.len() == 0 && b.len() == 0 {
        assert(a =~= b);
    }
}

/// The order of byte strings is transitive.
pub proof fn lemma_bytes_order_trans(a: Seq<u8>, b: Seq<u8>, c: Seq<u8>)
    requires
        bytes_order(a, b) <= 0,
        bytes_order(b, c) <= 0,
    ensures
        bytes_order(a, c) <= 0,
        bytes_order(a, b) < 0 || bytes_order(b, c) < 0 ==> bytes_order(a, c) < 0,
    decreases a.len(),
{
    if a.len() > 0 && b.len() > 0 && c.len() > 0 && a[0] == b[0] && b[0] == c[0] {
        lemma_bytes_order_trans(a.drop_first(), b.drop_first(), c.drop_first());
    }
}

/// Whether pair `p` ranks no higher than pair `q` for merging: by count, then by
/// the bytes of its two tokens.
pub open spec fn ranks_le(counts: Map<u32, usize>, vocab: Seq<Seq<u8>>, p: u32, q: u32) -> bool {
    ||| counts[p] < counts[q]
    ||| counts[p] == counts[q] && tuple_order(
        vocab[pair_hi(p) as int],
        vocab[pair_lo(p) as int],
        vocab[pair_hi(q) as int],
        vocab[pair_lo(q) as int],
    ) <= 0
}

/// The ranking of pairs is transitive and total.
pub proof fn lemma_ranks(counts: Map<u32, usize>, vocab: Seq<Seq<u8>>, p: u32, q: u32, r: u32)
    ensures
        ranks_le(counts, vocab, p, q) && ranks_le(counts, vocab, q, r) ==> ranks_le(counts, vocab, p, r),
        ranks_le(counts, vocab, p, q) || ranks_le(counts, vocab, q, p),
        ranks_le(counts, vocab, p, p),
{
    let tp = (vocab[pair_hi(p) as int], vocab[pair_lo(p) as int]);
    let tq = (vocab[pair_hi(q) as int], vocab[pair_lo(q) as int]);
    let tr = (vocab[pair_hi(r) as int], vocab[pair_lo(r) as int]);
    lemma_bytes_order_antisym(tp.0, tq.0);
    lemma_bytes_order_antisym(tp.1, tq.1);
    lemma_bytes_order_antisym(tp.0, tp.0);
    lemma_bytes_order_antisym(tp.1, tp.1);
    if ranks_le(counts, vocab, p, q) && ranks_le(counts, vocab, q, r) && counts[p] == counts[q] && counts[q] == counts[r] {
        lemma_bytes_order_antisym(tq.0, tr.0);
        lemma_bytes_order_antisym(tp.0, tr.0);
        if bytes_order(tp.0, tq.0) <= 0 && bytes_order(tq.0, tr.0) <= 0 {
            lemma_bytes_order_trans(tp.0, tq.0, tr.0);
        }
        if bytes_order(tp.0, tq.0) == 0 && bytes_order(tq.0, tr.0) == 0 {
            lemma_bytes_order_trans(tp.1, tq.1, tr.1);
        }
    }
}

/// The two tokens a packed pair stands for.
fn pair_tokens<'a>(vocab: &'a [TokenBytes], p: PackedPair) -> (r: (&'a TokenBytes, &'a TokenBytes))
    requires
        (pair_hi(p) as int) < vocab@.len(),
        (pair_lo(p) as int) < vocab@.len(),
    ensures
        r.0@ == vocab@[pair_hi(p) as int]@,
        r.1@ == vocab@[pair_lo(p) as int]@,
{
    assert((p >> 16u32) == p / 65536 && (p & 0xffffu32) == p % 65536) by (bit_vector);
    (&vocab[(p >> 16) as usize], &vocab[(p & 0xffff) as usize])
}

/// Whether a pair with count `v` and tokens `x` ranks at least as high for merging
/// as one with count `bv` and tokens `b`.
fn ranks_at_least(bv: usize, b: (&TokenBytes, &TokenBytes), v: usize, x: (&TokenBytes, &TokenBytes)) -> (r: bool)
    ensures
        r == (bv < v || (bv == v && tuple_order(b.0@, b.1@, x.0@, x.1@) <= 0)),
{
    if v > bv {
        true
    } else if v < bv {
        false
    } else {
        match cmp_tuple(b, x) {
            Ordering::Greater => false,
            _ => true,
        }
    }
}

/// Whether every pair of a count map stands for two tokens of the vocabulary.
pub open spec fn pairs_in_vocab(counts: Map<u32, usize>, n: nat) -> bool {
    forall|p: u32| #[trigger] counts.contains_key(p) ==> pair_hi(p) < n && pair_lo(p) < n
}

/// Whether every pair of a count map that shares its count with another pair
/// stands for two tokens of the vocabulary: those are the pairs whose tokens'
/// bytes are compared.
pub open spec fn ties_in_vocab(counts: Map<u32, usize>, n: nat) -> bool {
    forall|p: u32, q: u32|
        #![trigger counts.contains_key(p), counts.contains_key(q)]
        counts.contains_key(p) && counts.contains_key(q) && p != q && counts[p] == counts[q] ==> pair_hi(p) < n
            && pair_lo(p) < n
}

/// The pair to merge next: one with the largest count, and among those, one whose
/// two tokens' bytes come last. `None` when there is no pair.
pub fn get_largest_pair(count_map: &HashMap<PackedPair, usize>, vocab: &[TokenBytes]) -> (r: Option<[TokenId; 2]>)
    requires
        ties_in_vocab(count_map@, vocab@.len()),
    ensures
        r is None <==> count_map@.dom() =~= Set::empty(),
        r matches Some(q) ==> count_map@.contains_key(pack(q@[0], q@[1])),
        r matches Some(q) ==> forall|p: u32| #[trigger] count_map@.contains_key(p) ==> ranks_le(
            count_map@,
            tokens_view(vocab@),
            p,
            pack(q@[0], q@[1]),
        ),
{
    let ghost m = count_map@;
    let ghost tv = tokens_view(vocab@);
    let ghost mut seen: Set<u32> = Set::empty();
    let mut best: Option<(PackedPair, usize)> = None;
    for (k, v) in it: count_map.iter()
        invariant
            m == count_map@,
            tv == tokens_view(vocab@),
            ties_in_vocab(m, vocab@.len()),
            forall|i: int| 0 <= i < it.seq().len() ==> #[trigger] m.contains_key(*it.seq()[i].0) && m[*it.seq()[i].0] == *it.seq()[i].1,
            forall|p: u32| m.contains_key(p) ==> it.seq().contains((&p, &m[p])),
            seen == Set::new(|p: u32| exists|i: int| 0 <= i < it.index() && *it.seq()[i].0 == p),
            best is None <==> it.index() == 0,
            best matches Some(bb) ==> m.contains_key(bb.0) && m[bb.0] == bb.1,
            best matches Some(bb) ==> forall|p: u32| #[trigger] seen.contains(p) ==> ranks_le(m, tv, p, bb.0),
    {
        let ghost i = it.index() as int;
        proof {
            assert((k, v) == it.seq()[i]);
            assert(m.contains_key(*k) && m[*k] == *v);
        }
        let ghost new_seen = seen.insert(*k);
        proof {
            assert(new_seen =~= Set::new(|p: u32| exists|j: int| 0 <= j < i + 1 && *it.seq()[j].0 == p)) by {
                assert forall|p: u32| new_seen.contains(p) implies exists|j: int| 0 <= j < i + 1 && *it.seq()[j].0 == p by {
                    if p == *k {
                        assert(*it.seq()[i].0 == p);
                    } else {
                        let j = choose|j: int| 0 <= j < i && *it.seq()[j].0 == p;
                        assert(0 <= j < i + 1 && *it.seq()[j].0 == p);
                    }
                }
            }
        }
        match best {
            None => {
                best = Some((*k, *v));
                proof {
                    lemma_ranks(m, tv, *k, *k, *k);
                    assert(seen =~= Set::empty());
                }
            },
            Some((bk, bv)) => {
                let replace = if *v > bv {
                    true
                } else if *v < bv {
                    false
                } else if *k == bk {
                    false
                } else {
                    proof {
                        assert(m.contains_key(bk) && m.contains_key(*k) && bk != *k && m[bk] == m[*k]);
                    }
                    let r = ranks_at_least(bv, pair_tokens(vocab, bk), *v, pair_tokens(vocab, *k));
                    proof {
                        assert(tv[pair_hi(bk) as int] == vocab@[pair_hi(bk) as int]@);
                        assert(tv[pair_lo(bk) as int] == vocab@[pair_lo(bk) as int]@);
                        assert(tv[pair_hi(*k) as int] == vocab@[pair_hi(*k) as int]@);
                        assert(tv[pair_lo(*k) as int] == vocab@[pair_lo(*k) as int]@);
                    }
                    r
                };
                proof {
                    lemma_ranks(m, tv, bk, *k, bk);
                    assert(replace ==> ranks_le(m, tv, bk, *k));
                    assert(!replace ==> ranks_le(m, tv, *k, bk)) by {
                        let tb = (tv[pair_hi(bk) as int], tv[pair_lo(bk) as int]);
                        let tx = (tv[pair_hi(*k) as int], tv[pair_lo(*k) as int]);
                        lemma_bytes_order_antisym(tb.0, tx.0);
                        lemma_bytes_order_antisym(tb.1, tx.1);
                        lemma_ranks(m, tv, *k, *k, *k);
                    }
                    assert forall|p: u32| #[trigger] new_seen.contains(p) implies ranks_le(
                        m,
                        tv,
                        p,
                        if replace { *k } else { bk },
                    ) by {
                        if p != *k {
                            assert(seen.contains(p));
                            lemma_ranks(m, tv, p, bk, *k);
                        } else {
                            lemma_ranks(m, tv, *k, *k, *k);
                        }
                    }
                }
                if replace {
                    best = Some((*k, *v));
                }
            },
        }
        proof {
            seen = new_seen;
        }
    }
    proof {
        assert(seen =~= m.dom());
    }
    match best {
        None => {
            proof {
                assert(count_map@.dom() =~= Set::empty());
            }
            None
        },
        Some((bk, _bv)) => {
            let r = unpack_pair(bk);
            proof {
                lemma_unpack_pack(bk);
                assert(pack(r@[0], r@[1]) == bk);
                assert forall|p: u32| #[trigger] m.contains_key(p) implies ranks_le(m, tv, p, bk) by {
                    assert(seen.contains(p));
                }
            }
            Some(r)
        },
    }
}

/// The vocabulary every training starts with: one token for each byte, in byte order.
pub fn init_vocab() -> (vocab: Vec<TokenBytes>)
    ensures
        tokens_view(vocab@) == byte_vocab(),
{
    let mut vocab: Vec<TokenBytes> = Vec::new();
    for i in 0..256usize
        invariant
            vocab@.len() == i,
            forall|j: int| 0 <= j < i ==> (#[trigger] vocab@[j])@ == seq![j as u8],
    {
        let mut token: TokenBytes = Vec::new();
        token.push(i as u8);
        vocab.push(token);
    }
    proof {
        assert(tokens_view(vocab@) =~= byte_vocab());
    }
    vocab
}

/// A copy of a byte string.
pub(crate) fn copy_bytes(bytes: &TokenBytes) -> (r: TokenBytes)
    ensures
        r@ == bytes@,
{
    let mut r: TokenBytes = Vec::new();
    for i in 0..bytes.len()
        invariant
            r@ == bytes@.take(i as int),
    {
        r.push(bytes[i]);
        proof {
            assert(bytes@.take(i + 1) =~= bytes@.take(i as int).push(bytes@[i as int]));
        }
    }
    proof {
        assert(bytes@.take(bytes@.len() as int) =~= bytes@);
    }
    r
}

/// The bytes of one byte string followed by those of another.
pub(crate) fn concat_bytes(a: &TokenBytes, b: &TokenBytes) -> (r: TokenBytes)
    ensures
        r@ == a@ + b@,
{
    let mut r = copy_bytes(a);
    for i in 0..b.len()
        invariant
            r@ == a@ + b@.take(i as int),
    {
        r.push(b[i]);
        proof {
            assert(a@ + b@.take(i + 1) =~= (a@ + b@.take(i as int)).push(b@[i as int]));
        }
    }
    proof {
        assert(b@.take(b@.len() as int) =~= b@);
    }
    r
}

/// A count map that holds the kept pairs of a state, each with its count, is the
/// state's pair counts.
proof fn lemma_counts_map(m: Map<u32, usize>, s: TrainState)
    requires
        forall|p: u32| #[trigger] m.contains_key(p) == s.keys.contains(p),
        forall|p: u32| #[trigger] count_of(m, p) == total(s.entries, p),
        forall|p: u32| #[trigger] total(s.entries, p) <= usize::MAX,
    ensures
        m == pair_counts(s),
{
    assert forall|p: u32| #[trigger] m.contains_key(p) implies m[p] == total(s.entries, p) as usize by {
        assert(count_of(m, p) == total(s.entries, p));
    }
    assert(m =~= pair_counts(s));
}

/// The vocabulary and merges a training run produced.
pub struct BpeTrainingResult {
    /// The tokens' bytes, indexed by token id.
    pub vocab: Vec<TokenBytes>,
    /// The merges in the order they were made: the bytes of the two tokens merged.
    pub merges: Vec<(TokenBytes, TokenBytes)>,
}

/// Trains a byte-pair encoding on words given with their counts: starting from
/// one token per byte, merges the pair with the largest count (ties going to the
/// pair whose tokens' bytes come last) into a new token, again and again, until
/// the vocabulary leaves no room for another token beside the special tokens or
/// no pair is left.
pub fn train_bpe(
    freq_map: Vec<(TokenIds, usize)>,
    max_vocab_size: usize,
    special_tokens: &[String],
    threads: usize,
) -> (r: Result<BpeTrainingResult, CustomError>)
    requires
        weight(entries_of(freq_map@)) <= usize::MAX,
        entries_below(entries_of(freq_map@), 256),
        (exists|i: int| 0 <= i < freq_map@.len() && #[trigger] freq_map@[i].0.len() >= 2) ==> (if max_vocab_size
            < 65536 {
            max_vocab_size as int
        } else {
            65536
        }) >= 1 + special_tokens@.len(),
    ensures
        r is Ok,
        r matches Ok(res) ==> exists|qs: Seq<u32>|
            #[trigger] finished_run(
                entries_of(freq_map@),
                merge_limit(max_vocab_size as nat, special_tokens@.len()),
                qs,
            ) && run(entries_of(freq_map@), qs).vocab == tokens_view(res.vocab@) && run_merges(
                entries_of(freq_map@),
                qs,
            ) == merges_view(res.merges@),
        r matches Ok(res) ==> res.vocab@.len() == 256 + res.merges@.len(),
        r matches Ok(res) ==> forall|i: int| #![trigger res.merges@[i]] 0 <= i < res.merges@.len() ==> res.vocab@[256 + i]@
            == res.merges@[i].0@ + res.merges@[i].1@,
{
    let mut vocab = init_vocab();
    let mut merges: Vec<(TokenBytes, TokenBytes)> = Vec::new();
    let mut entries = freq_map;
    let ghost es0 = entries_of(entries@);
    let ghost w0 = weight(es0);
    let ghost limit = merge_limit(max_vocab_size as nat, special_tokens@.len());
    let ghost mut qs: Seq<u32> = Seq::empty();
    proof {
        lemma_initial_good(es0);
        assert forall|p: u32| #[trigger] total(es0, p) <= usize::MAX by {
            lemma_total_weight(es0, p);
        }
        assert(run(es0, qs) == initial_state(es0));
        assert(merges_view(merges@) =~= run_merges(es0, qs));
    }
    let all_pairs = match count_pairs(&entries, threads) {
        Ok(found) => found,
        Err(e) => return Err(e),
    };
    let mut all_pairs = match all_pairs {
        Some(m) => m,
        None => {
            proof {
                assert forall|p: u32| !#[trigger] occurs(es0, p) by {
                    if occurs(es0, p) {
                        let i = lemma_any_pos(es0, |w: Seq<u16>| occ(w, p));
                        assert(entries@[i].0.len() < 2);
                    }
                }
                assert(run(es0, qs).keys =~= Set::empty());
                assert(finished_run(es0, limit, qs));
                law_run_vocab(es0, qs);
            }
            return Ok(BpeTrainingResult { vocab, merges });
        },
    };
    proof {
        assert forall|p: u32| #[trigger] total(es0, p) <= usize::MAX by {
            lemma_total_weight(es0, p);
        }
        lemma_counts_map(all_pairs@, run(es0, qs));
        assert(entries@[0].0.len() >= 2 || exists|i: int| 0 <= i < entries@.len() && entries@[i].0.len() >= 2);
    }
    let cap: usize = if max_vocab_size < 0x10000 { max_vocab_size } else { 0x10000 };
    let top: usize = cap - 1 - special_tokens.len();
    let mut idx: usize = 256;
    let mut done = false;
    while !done && idx <= top
        invariant
            es0 == entries_of(freq_map@),
            w0 == weight(es0),
            w0 <= usize::MAX,
            limit == merge_limit(max_vocab_size as nat, special_tokens@.len()),
            top < 65536,
            limit == (if top >= 256 { top - 255 } else { 0 }),
            idx == 256 + qs.len(),
            qs.len() <= limit,
            done ==> run(es0, qs).keys =~= Set::empty(),
            valid_run(es0, qs),
            good_state(run(es0, qs), w0),
            entries_of(entries@) == run(es0, qs).entries,
            tokens_view(vocab@) == run(es0, qs).vocab,
            all_pairs@ == pair_counts(run(es0, qs)),
            merges_view(merges@) == run_merges(es0, qs),
        decreases top + 1 - idx, (if done { 0int } else { 1int }),
    {
        let ghost s = run(es0, qs);
        proof {
            law_run_vocab(es0, qs);
        }
        proof {
            assert(pairs_in_vocab(pair_counts(s), s.vocab.len()));
            assert(vocab@.len() == s.vocab.len());
        }
        match get_largest_pair(&all_pairs, &vocab) {
            None => {
                done = true;
                proof {
                    assert(s.keys =~= pair_counts(s).dom());
                }
            },
            Some(pair) => {
                let ghost q = pack(pair@[0], pair@[1]);
                let ghost a = pair@[0];
                let ghost b = pair@[1];
                let new_id: u16 = idx as u16;
                proof {
                    lemma_pack_unpack(a, b);
                    assert(is_best_pair(s, q));
                    lemma_step_good(s, q, w0);
                    assert(pair_counts(s).contains_key(q));
                    assert(a < s.vocab.len() && b < s.vocab.len());
                    assert(a != new_id && b != new_id);
                    assert forall|p: u32| #[trigger] removed_total(s.entries, a, b, new_id, p) <= usize::MAX by {
                        lemma_delta_bounds(s.entries, a, b, new_id, p);
                    }
                    assert forall|p: u32| #[trigger] added_total(s.entries, a, b, new_id, p) <= usize::MAX by {
                        lemma_delta_bounds(s.entries, a, b, new_id, p);
                    }
                    assert(pair_counts(s).contains_key(q));
                }
                let delta = match replace_pair_in_freq_map(&mut entries, &pair, new_id, threads) {
                    Ok(d) => d,
                    Err(e) => return Err(e),
                };
                let first = copy_bytes(&vocab[pair[0] as usize]);
                let second = copy_bytes(&vocab[pair[1] as usize]);
                let joined = concat_bytes(&first, &second);
                vocab.push(joined);
                merges.push((first, second));
                let ghost t = merge_step(s, q);
                proof {
                    assert forall|p: u32| #![trigger count_of(delta.removed@, p)]
                        count_of(delta.removed@, p) > count_of(delta.added@, p) implies all_pairs@.contains_key(p)
                            && count_of(all_pairs@, p) >= count_of(delta.removed@, p) - count_of(delta.added@, p) by {
                        assert(removed_total(s.entries, a, b, new_id, p) > added_total(s.entries, a, b, new_id, p));
                        lemma_total_weight(s.entries, p);
                    }
                    assert forall|p: u32| #![trigger count_of(delta.removed@, p)]
                        applied_count(count_of(all_pairs@, p), count_of(delta.removed@, p), count_of(delta.added@, p))
                            <= usize::MAX by {
                        assert(count_of(all_pairs@, p) == total(s.entries, p)) by {
                            lemma_total_weight(s.entries, p);
                        }
                        assert(applied_count(total(s.entries, p), removed_total(s.entries, a, b, new_id, p), added_total(s.entries, a, b, new_id, p)) == total(t.entries, p));
                        lemma_total_weight(t.entries, p);
                    }
                }
                let ghost before = all_pairs@;
                apply_count_delta(&mut all_pairs, delta);
                proof {
                    assert forall|p: u32| #[trigger] count_of(before, p) == total(s.entries, p) by {
                        lemma_total_weight(s.entries, p);
                    }
                    assert forall|p: u32| #[trigger] all_pairs@.contains_key(p) == t.keys.contains(p) by {
                        assert(count_of(before, p) == total(s.entries, p));
                    }
                    assert forall|p: u32| #[trigger] count_of(all_pairs@, p) == total(t.entries, p) by {
                        assert(count_of(before, p) == total(s.entries, p));
                        assert(applied_count(total(s.entries, p), removed_total(s.entries, a, b, new_id, p), added_total(s.entries, a, b, new_id, p)) == total(t.entries, p));
                    }
                    assert forall|p: u32| #[trigger] total(t.entries, p) <= usize::MAX by {
                        lemma_total_weight(t.entries, p);
                    }
                    lemma_counts_map(all_pairs@, t);
                    let qs2 = qs.push(q);
                    assert(qs2.drop_last() =~= qs);
                    assert(run(es0, qs2) == t);
                    assert(tokens_view(vocab@) =~= t.vocab);
                    assert(merges_view(merges@) =~= run_merges(es0, qs2));
                    qs = qs2;
                }
                idx += 1;
            },
        }
    }
    proof {
        assert(finished_run(es0, limit, qs));
        law_run_vocab(es0, qs);
        assert forall|i: int| #![trigger merges@[i]] 0 <= i < merges@.len() implies vocab@[256 + i]@ == merges@[i].0@
            + merges@[i].1@ by {
            assert(tokens_view(vocab@)[256 + i] == vocab@[256 + i]@);
            assert(merges_view(merges@)[i] == (merges@[i].0@, merges@[i].1@));
        }
    }
    Ok(BpeTrainingResult { vocab, merges })
}

/// Bytes as token ids: each byte its own id.
pub open spec fn bytes_as_ids(b: Seq<u8>) -> Seq<u16> {
    b.map_values(|x: u8| x as u16)
}

/// The words of a frequency map as token ids, each byte its own id, with their
/// counts, in the same order.
pub fn convert_freq_map_to_u16(map: Vec<(TokenBytes, usize)>) -> (r: Vec<(TokenIds, usize)>)
    ensures
        r@.len() == map@.len(),
        forall|i: int| 0 <= i < map@.len() ==> (#[trigger] r@[i]).0@ == bytes_as_ids(map@[i].0@) && r@[i].1 == map@[i].1,
        entries_below(entries_of(r@), 256),
        (forall|i: int, j: int| 0 <= i < j < map@.len() ==> #[trigger] map@[i].0@ != #[trigger] map@[j].0@) ==> words_distinct(
            entries_of(r@),
        ),
{
    let mut r: Vec<(TokenIds, usize)> = Vec::new();
    for i in 0..map.len()
        invariant
            r@.len() == i,
            forall|j: int| 0 <= j < i ==> (#[trigger] r@[j]).0@ == bytes_as_ids(map@[j].0@) && r@[j].1 == map@[j].1,
    {
        let word: &TokenBytes = &map[i].0;
        let mut ids: TokenIds = Vec::new();
        for j in 0..word.len()
            invariant
                ids@ == bytes_as_ids(word@.take(j as int)),
        {
            ids.push(word[j] as u16);
            proof {
                assert(bytes_as_ids(word@.take(j + 1)) =~= bytes_as_ids(word@.take(j as int)).push(word@[j as int] as u16));
            }
        }
        proof {
            assert(word@.take(word@.len() as int) =~= word@);
        }
        r.push((ids, map[i].1));
    }
    proof {
        assert forall|i: int| 0 <= i < entries_of(r@).len() implies crate::pairs::ids_below(#[trigger] entries_of(r@)[i].0, 256) by {
            assert(entries_of(r@)[i].0 == bytes_as_ids(map@[i].0@));
        }
        if forall|i: int, j: int| 0 <= i < j < map@.len() ==> #[trigger] map@[i].0@ != #[trigger] map@[j].0@ {
            let es = entries_of(r@);
            assert forall|i: int, j: int| 0 <= i < j < es.len() implies #[trigger] es[i].0 != #[trigger] es[j].0 by {
                let u = map@[i].0@;
                let v = map@[j].0@;
                if es[i].0 == es[j].0 {
                    assert(es[i].0 == bytes_as_ids(u));
                    assert(es[j].0 == bytes_as_ids(v));
                    assert forall|k: int| 0 <= k < u.len() implies u[k] == v[k] by {
                        assert(bytes_as_ids(u)[k] == bytes_as_ids(v)[k]);
                    }
                    assert(u =~= v);
                }
            }
        }
    }
    r
}

/// Whether words and their counts suit `train_bpe`: every id is a byte, the
/// words' weighted length fits in `usize`, and, when some word has a pair,
/// the vocabulary has room for the byte tokens' last id and the special tokens.
pub fn training_input_ok(freq_map: &Vec<(TokenIds, usize)>, max_vocab_size: usize, n_special: usize) -> (r: bool)
    ensures
        r == (weight(entries_of(freq_map@)) <= usize::MAX && entries_below(entries_of(freq_map@), 256) && ((exists|i: int|
            0 <= i < freq_map@.len() && #[trigger] freq_map@[i].0.len() >= 2) ==> (if max_vocab_size < 65536 {
            max_vocab_size as int
        } else {
            65536
        }) >= 1 + n_special)),
{
    let ghost es = entries_of(freq_map@);
    let mut total: usize = 0;
    let mut has_pair = false;
    for i in 0..freq_map.len()
        invariant
            es == entries_of(freq_map@),
            weight(es.take(i as int)) == total,
            entries_below(es.take(i as int), 256),
            has_pair == exists|k: int| 0 <= k < i && #[trigger] freq_map@[k].0.len() >= 2,
    {
        let word: &TokenIds = &freq_map[i].0;
        let count: usize = freq_map[i].1;
        proof {
            assert(es[i as int] == (word@, count as nat));
            crate::pairs::lemma_entries_take(es, i as int, 0);
        }
        for j in 0..word.len()
            invariant
                es == entries_of(freq_map@),
                i < es.len(),
                es[i as int].0 == word@,
                forall|q: int| 0 <= q < j ==> #[trigger] word@[q] < 256,
        {
            if word[j] >= 256 {
                proof {
                    assert(!entries_below(es, 256)) by {
                        if entries_below(es, 256) {
                            assert(crate::pairs::ids_below(es[i as int].0, 256));
                            assert(es[i as int].0[j as int] < 256);
                        }
                    }
                }
                return false;
            }
        }
        if word.len() >= 2 {
            has_pair = true;
        }
        let len = word.len();
        let grown: Option<usize> = match count.checked_mul(len) {
            Some(w) => total.checked_add(w),
            None => None,
        };
        proof {
            assert(count * len == count as nat * word@.len());
            crate::pairs::lemma_total_prefix(es, i + 1, 0);
        }
        match grown {
            Some(t) => {
                total = t;
            },
            None => {
                proof {
                    assert(weight(es.take(i + 1)) > usize::MAX) by (nonlinear_arith)
                        requires
                            weight(es.take(i + 1)) == total + count * len,
                            total + count * len > usize::MAX || count * len > usize::MAX,
                            count * len >= 0,
                    ;
                }
                return false;
            }
        }
        proof {
            assert forall|k: int| 0 <= k < i + 1 implies crate::pairs::ids_below(#[trigger] es.take(i + 1)[k].0, 256) by {
                if k < i {
                    assert(es.take(i + 1)[k] == es.take(i as int)[k]);
                } else {
                    assert(es.take(i + 1)[k] == es[i as int]);
                }
            }
        }
    }
    proof {
        assert(es.take(freq_map@.len() as int) =~= es);
    }
    if has_pair {
        let cap: usize = if max_vocab_size < 0x10000 { max_vocab_size } else { 0x10000 };
        n_special < cap
    } else {
        true
    }
}

} // verus!

verus! {

/// The trained vocabulary with a special token in front: the special token's
/// bytes take id 0 and every trained token moves up by one id.
pub fn vocab_with_special_first(special: &String, vocab: Vec<TokenBytes>) -> (r: Vec<TokenBytes>)
    ensures
        r@.len() == vocab@.len() + 1,
        r@[0]@ == vstd::utf8::encode_utf8(special@),
        r@.drop_first() == vocab@,
{
    let mut r: Vec<TokenBytes> = Vec::new();
    r.push(special.as_str().as_bytes_vec());
    let mut rest = vocab;
    r.append(&mut rest);
    assert(r@.drop_first() =~= vocab@);
    r
}

} // verus!

verus! {

/// Byte strings are ordered lexicographically: after a common prefix of length
/// `k`, the string with the smaller next byte comes first whatever the lengths,
/// a proper prefix comes first, and equal strings are level.
pub proof fn law_bytes_order_lexicographic(a: Seq<u8>, b: Seq<u8>, k: int)
    requires
        0 <= k <= a.len(),
        k <= b.len(),
        a.take(k) == b.take(k),
    ensures
        k < a.len() && k < b.len() && a[k] < b[k] ==> bytes_order(a, b) < 0,
        k < a.len() && k < b.len() && a[k] > b[k] ==> bytes_order(a, b) > 0,
        k == a.len() && k < b.len() ==> bytes_order(a, b) < 0,
        k < a.len() && k == b.len() ==> bytes_order(a, b) > 0,
        k == a.len() && k == b.len() ==> bytes_order(a, b) == 0,
    decreases k,
{
    if k > 0 {
        assert(a[0] == a.take(k)[0]);
        assert(b[0] == b.take(k)[0]);
        assert(a.drop_first().take(k - 1) == a.take(k).drop_first());
        assert(b.drop_first().take(k - 1) == b.take(k).drop_first());
        law_bytes_order_lexicographic(a.drop_first(), b.drop_first(), k - 1);
        if k < a.len() {
            assert(a.drop_first()[k - 1] == a[k]);
        }
        if k < b.len() {
            assert(b.drop_first()[k - 1] == b[k]);
        }
    }
}

} // verus!

verus! {

/// Pairs of byte strings are ordered by their first strings, and by their
/// second strings when the first are equal.
pub proof fn law_tuple_order_first_then_second(a0: Seq<u8>, a1: Seq<u8>, b0: Seq<u8>, b1: Seq<u8>)
    ensures
        tuple_order(a0, a1, b0, b1) < 0 <==> (bytes_order(a0, b0) < 0 || (a0 == b0 && bytes_order(a1, b1) < 0)),
        tuple_order(a0, a1, b0, b1) == 0 <==> (a0 == b0 && a1 == b1),
{
    lemma_bytes_order_antisym(a0, b0);
    lemma_bytes_order_antisym(a1, b1);
}

/// A pair with a larger count always ranks higher for merging; at equal counts,
/// the pair whose tokens' bytes come later ranks higher.
pub proof fn law_ranks_count_first(counts: Map<u32, usize>, vocab: Seq<Seq<u8>>, p: u32, q: u32)
    ensures
        counts[p] < counts[q] ==> ranks_le(counts, vocab, p, q) && !ranks_le(counts, vocab, q, p),
        counts[p] == counts[q] ==> (ranks_le(counts, vocab, p, q) <==> tuple_order(
            vocab[pair_hi(p) as int],
            vocab[pair_lo(p) as int],
            vocab[pair_hi(q) as int],
            vocab[pair_lo(q) as int],
        ) <= 0),
{
}

} // verus!
