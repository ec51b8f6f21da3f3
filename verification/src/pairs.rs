//! The mathematics of adjacent token pairs: packing two ids into one key,
//! counting the occurrences of a pair in a word and in weighted words, and
//! merging every occurrence of a pair into a new token.
use vstd::prelude::*;

verus! {

/// Two token ids packed into one key, the first in the high half.
pub open spec fn pack(hi: u16, lo: u16) -> u32 {
    (hi as int * 65536 + lo as int) as u32
}

/// The first id of a packed pair.
pub open spec fn pair_hi(p: u32) -> u16 {
    (p / 65536) as u16
}

/// The second id of a packed pair.
pub open spec fn pair_lo(p: u32) -> u16 {
    (p % 65536) as u16
}

/// Packing and unpacking are inverse.
pub proof fn lemma_pack_unpack(hi: u16, lo: u16)
    ensures
        pair_hi(pack(hi, lo)) == hi,
        pair_lo(pack(hi, lo)) == lo,
        pack(hi, lo) == hi as int * 65536 + lo as int,
{
}

/// Unpacking and packing are inverse.
pub proof fn lemma_unpack_pack(p: u32)
    ensures
        pack(pair_hi(p), pair_lo(p)) == p,
{
}

/// How often the pair `p` occurs at adjacent positions of `w`.
pub open spec fn occ(w: Seq<u16>, p: u32) -> nat
    decreases w.len(),
{
    if w.len() < 2 {
        0
    } else {
        (if pack(w[0], w[1]) == p { 1nat } else { 0nat }) + occ(w.drop_first(), p)
    }
}

/// A word with a weight: how often the word occurs.
pub type Entry = (Seq<u16>, nat);

/// The sum over weighted words of a measure of each word, times its weight.
pub open spec fn wsum(es: Seq<Entry>, f: spec_fn(Seq<u16>) -> nat) -> nat
    decreases es.len(),
{
    if es.len() == 0 {
        0
    } else {
        wsum(es.drop_last(), f) + es.last().1 * f(es.last().0)
    }
}

/// Whether a measure is positive on any of the weighted words, whatever their weights.
pub open spec fn any(es: Seq<Entry>, f: spec_fn(Seq<u16>) -> nat) -> bool
    decreases es.len(),
{
    if es.len() == 0 {
        false
    } else {
        any(es.drop_last(), f) || f(es.last().0) > 0
    }
}

/// How often the pair `p` occurs in weighted words.
pub open spec fn total(es: Seq<Entry>, p: u32) -> nat {
    wsum(es, |w: Seq<u16>| occ(w, p))
}

/// The total weighted length of weighted words.
pub open spec fn weight(es: Seq<Entry>) -> nat {
    wsum(es, |w: Seq<u16>| w.len())
}

/// Whether the pair `p` occurs in any of the weighted words, whatever their weights.
pub open spec fn occurs(es: Seq<Entry>, p: u32) -> bool {
    any(es, |w: Seq<u16>| occ(w, p))
}

/// `w` with every occurrence of `(a, b)`, read from the left, replaced by `x`.
pub open spec fn merge(w: Seq<u16>, a: u16, b: u16, x: u16) -> Seq<u16>
    decreases w.len(),
{
    if w.len() == 0 {
        w
    } else if w.len() >= 2 && w[0] == a && w[1] == b {
        seq![x] + merge(w.skip(2), a, b, x)
    } else {
        seq![w[0]] + merge(w.skip(1), a, b, x)
    }
}

/// Weighted words with the pair `(a, b)` merged into `x` in each word.
pub open spec fn merge_all(es: Seq<Entry>, a: u16, b: u16, x: u16) -> Seq<Entry> {
    es.map_values(|e: Entry| (merge(e.0, a, b, x), e.1))
}

/// 1 when the condition holds, else 0.
pub open spec fn ind(c: bool) -> nat {
    if c {
        1
    } else {
        0
    }
}

/// The element a word holds before position `write`, if there is one.
pub open spec fn last_written(s: Seq<u16>, write: int) -> Option<u16> {
    if write > 0 {
        Some(s[write - 1])
    } else {
        None
    }
}

/// The element after a merge site at the front of `rest`, if there is one.
pub open spec fn after_site(rest: Seq<u16>) -> Option<u16> {
    if rest.len() > 2 {
        Some(rest[2])
    } else {
        None
    }
}

/// The pair counts one merge site takes away: the pair before the site, the
/// pair after it, and the merged pair itself.
pub open spec fn site_removed(left: Option<u16>, right: Option<u16>, a: u16, b: u16, p: u32) -> nat {
    ind(left is Some && pack(left->0, a) == p) + ind(right is Some && pack(b, right->0) == p) + ind(
        pack(a, b) == p,
    )
}

/// The pair counts one merge site adds: the new pair before the site and the
/// new pair after it.
pub open spec fn site_added(left: Option<u16>, right: Option<u16>, x: u16, p: u32) -> nat {
    ind(left is Some && pack(left->0, x) == p) + ind(right is Some && pack(x, right->0) == p)
}

/// The pair counts that merging `(a, b)` into `x` takes away from the word
/// `rest`, preceded by `prev` when there is one. Each merge site counts the pair
/// before it as it stands when the site is reached, so a site right after
/// another one takes away a pair with `x` in front.
pub open spec fn removed_events(prev: Option<u16>, rest: Seq<u16>, a: u16, b: u16, x: u16, p: u32) -> nat
    decreases rest.len(),
{
    if rest.len() == 0 {
        0
    } else if rest.len() >= 2 && rest[0] == a && rest[1] == b {
        site_removed(prev, after_site(rest), a, b, p) + removed_events(Some(x), rest.skip(2), a, b, x, p)
    } else {
        removed_events(Some(rest[0]), rest.skip(1), a, b, x, p)
    }
}

/// The pair counts that merging `(a, b)` into `x` adds to the word `rest`,
/// preceded by `prev` when there is one.
pub open spec fn added_events(prev: Option<u16>, rest: Seq<u16>, a: u16, b: u16, x: u16, p: u32) -> nat
    decreases rest.len(),
{
    if rest.len() == 0 {
        0
    } else if rest.len() >= 2 && rest[0] == a && rest[1] == b {
        site_added(prev, after_site(rest), x, p) + added_events(Some(x), rest.skip(2), a, b, x, p)
    } else {
        added_events(Some(rest[0]), rest.skip(1), a, b, x, p)
    }
}

/// The word `rest` preceded by `prev` when there is one.
pub open spec fn with_prev(prev: Option<u16>, rest: Seq<u16>) -> Seq<u16> {
    match prev {
        Some(c) => seq![c] + rest,
        None => rest,
    }
}

/// Occurrences in a word with one more element in front.
pub proof fn lemma_occ_prepend(c: u16, s: Seq<u16>, p: u32)
    ensures
        occ(seq![c] + s, p) == ind(s.len() > 0 && pack(c, s[0]) == p) + occ(s, p),
{
    let w = seq![c] + s;
    if s.len() > 0 {
        assert(w.drop_first() == s);
    }
}

/// The counting law of a merge: the pairs of the merged word plus the removed
/// counts equal the pairs of the word plus the added counts.
#[verifier::rlimit(40)]
pub proof fn lemma_merge_counts(prev: Option<u16>, rest: Seq<u16>, a: u16, b: u16, x: u16, p: u32)
    ensures
        occ(with_prev(prev, merge(rest, a, b, x)), p) + removed_events(prev, rest, a, b, x, p)
            == occ(with_prev(prev, rest), p) + added_events(prev, rest, a, b, x, p),
    decreases rest.len(),
{
    if rest.len() == 0 {
    } else if rest.len() >= 2 && rest[0] == a && rest[1] == b {
        let tail = rest.skip(2);
        let mt = merge(tail, a, b, x);
        assert(removed_events(prev, rest, a, b, x, p) == site_removed(prev, after_site(rest), a, b, p)
            + removed_events(Some(x), tail, a, b, x, p));
        assert(added_events(prev, rest, a, b, x, p) == site_added(prev, after_site(rest), x, p)
            + added_events(Some(x), tail, a, b, x, p));
        lemma_merge_counts(Some(x), tail, a, b, x, p);
        lemma_occ_prepend(x, mt, p);
        lemma_occ_prepend(x, tail, p);
        lemma_merge_len(tail, a, b, x);
        lemma_merge_first(tail, a, b, x);
        assert(rest == seq![a, b] + tail);
        assert(seq![a] + (seq![b] + tail) == rest);
        lemma_occ_prepend(b, tail, p);
        lemma_occ_prepend(a, seq![b] + tail, p);
        assert(merge(rest, a, b, x) == seq![x] + mt);
        match prev {
            Some(c) => {
                lemma_occ_prepend(c, seq![x] + mt, p);
                lemma_occ_prepend(c, rest, p);
            },
            None => {},
        }
    } else {
        let tail = rest.skip(1);
        let mt = merge(tail, a, b, x);
        assert(removed_events(prev, rest, a, b, x, p) == removed_events(Some(rest[0]), tail, a, b, x, p));
        assert(added_events(prev, rest, a, b, x, p) == added_events(Some(rest[0]), tail, a, b, x, p));
        lemma_merge_counts(Some(rest[0]), tail, a, b, x, p);
        assert(rest == seq![rest[0]] + tail);
        assert(merge(rest, a, b, x) == seq![rest[0]] + mt);
        match prev {
            Some(c) => {
                lemma_occ_prepend(c, seq![rest[0]] + mt, p);
                lemma_occ_prepend(c, rest, p);
            },
            None => {},
        }
    }
}

/// Merging never makes a word longer, and an empty word stays empty.
pub proof fn lemma_merge_len(w: Seq<u16>, a: u16, b: u16, x: u16)
    ensures
        merge(w, a, b, x).len() <= w.len(),
        w.len() > 0 ==> merge(w, a, b, x).len() > 0,
    decreases w.len(),
{
    if w.len() >= 2 && w[0] == a && w[1] == b {
        lemma_merge_len(w.skip(2), a, b, x);
    } else if w.len() > 0 {
        lemma_merge_len(w.skip(1), a, b, x);
    }
}

/// The first element of a merged word.
pub proof fn lemma_merge_first(w: Seq<u16>, a: u16, b: u16, x: u16)
    ensures
        w.len() > 0 ==> merge(w, a, b, x)[0] == (if w.len() >= 2 && w[0] == a && w[1] == b {
            x
        } else {
            w[0]
        }),
{
}

} // verus!

verus! {

/// A word loses at most two pair counts per element and gains at most one.
pub proof fn lemma_events_bound(prev: Option<u16>, rest: Seq<u16>, a: u16, b: u16, x: u16, p: u32)
    ensures
        removed_events(prev, rest, a, b, x, p) <= 2 * rest.len(),
        added_events(prev, rest, a, b, x, p) <= rest.len(),
    decreases rest.len(),
{
    if rest.len() >= 2 && rest[0] == a && rest[1] == b {
        lemma_events_bound(Some(x), rest.skip(2), a, b, x, p);
    } else if rest.len() > 0 {
        lemma_events_bound(Some(rest[0]), rest.skip(1), a, b, x, p);
    }
}

/// Occurrences in a word with one more element at the end.
pub proof fn lemma_occ_push(s: Seq<u16>, c: u16, p: u32)
    ensures
        occ(s.push(c), p) == occ(s, p) + ind(s.len() > 0 && pack(s.last(), c) == p),
    decreases s.len(),
{
    let t = s.push(c);
    if s.len() == 1 {
        assert(t.drop_first() =~= seq![c]);
        assert(occ(seq![c], p) == 0);
        assert(t[0] == s.last() && t[1] == c);
    } else if s.len() >= 2 {
        assert(t.drop_first() =~= s.drop_first().push(c));
        lemma_occ_push(s.drop_first(), c, p);
        assert(t[0] == s[0] && t[1] == s[1]);
        assert(s.drop_first().last() == s.last());
    }
}

/// A prefix of a word holds no more occurrences than the word.
pub proof fn lemma_occ_prefix(w: Seq<u16>, n: int, p: u32)
    requires
        0 <= n <= w.len(),
    ensures
        occ(w.take(n), p) <= occ(w, p),
    decreases w.len() - n,
{
    if n < w.len() {
        assert(w.take(n + 1) =~= w.take(n).push(w[n]));
        lemma_occ_push(w.take(n), w[n], p);
        lemma_occ_prefix(w, n + 1, p);
    } else {
        assert(w.take(n) =~= w);
    }
}

/// A word holds fewer occurrences of a pair than elements.
pub proof fn lemma_occ_len(w: Seq<u16>, p: u32)
    ensures
        occ(w, p) <= w.len(),
    decreases w.len(),
{
    if w.len() >= 2 {
        lemma_occ_len(w.drop_first(), p);
    }
}

/// Scaling a 0-or-1 count.
pub proof fn lemma_mul_ind(m: int, c: bool)
    ensures
        m * ind(c) == (if c { m } else { 0 }),
        ind(c) * m == (if c { m } else { 0 }),
{
    if c {
        assert(m * 1 == m);
        assert(1 * m == m);
    } else {
        assert(m * 0 == 0);
        assert(0 * m == 0);
    }
}

/// Scaling nothing.
pub proof fn lemma_mul_zero(m: int, e: int)
    requires
        e == 0,
    ensures
        m * e == 0,
        e * m == 0,
{
    assert(m * 0 == 0);
    assert(0 * m == 0);
}

/// The first `i` weighted words and the next one.
pub proof fn lemma_wsum_take(es: Seq<Entry>, i: int, f: spec_fn(Seq<u16>) -> nat)
    requires
        0 <= i < es.len(),
    ensures
        wsum(es.take(i + 1), f) == wsum(es.take(i), f) + es[i].1 * f(es[i].0),
        any(es.take(i + 1), f) == (any(es.take(i), f) || f(es[i].0) > 0),
{
    assert(es.take(i + 1).drop_last() =~= es.take(i));
}

/// Weighted words with one more at the end.
pub proof fn lemma_wsum_push(es: Seq<Entry>, e: Entry, f: spec_fn(Seq<u16>) -> nat)
    ensures
        wsum(es.push(e), f) == wsum(es, f) + e.1 * f(e.0),
        any(es.push(e), f) == (any(es, f) || f(e.0) > 0),
{
    assert(es.push(e).drop_last() =~= es);
}

/// The sum over the first weighted words grows with their number.
pub proof fn lemma_wsum_prefix(es: Seq<Entry>, i: int, f: spec_fn(Seq<u16>) -> nat)
    requires
        0 <= i <= es.len(),
    ensures
        wsum(es.take(i), f) <= wsum(es, f),
    decreases es.len() - i,
{
    if i < es.len() {
        lemma_wsum_take(es, i, f);
        lemma_wsum_prefix(es, i + 1, f);
    } else {
        assert(es.take(i) =~= es);
    }
}

/// A smaller measure has a smaller sum.
pub proof fn lemma_wsum_le(es: Seq<Entry>, f: spec_fn(Seq<u16>) -> nat, g: spec_fn(Seq<u16>) -> nat)
    requires
        forall|w: Seq<u16>| #[trigger] f(w) <= g(w),
    ensures
        wsum(es, f) <= wsum(es, g),
    decreases es.len(),
{
    if es.len() > 0 {
        let e = es.last();
        lemma_wsum_le(es.drop_last(), f, g);
        vstd::arithmetic::mul::lemma_mul_inequality(f(e.0) as int, g(e.0) as int, e.1 as int);
        assert(e.1 * f(e.0) == f(e.0) * e.1) by (nonlinear_arith);
        assert(e.1 * g(e.0) == g(e.0) * e.1) by (nonlinear_arith);
    }
}

/// A sum of two measures is the sum of their sums.
pub proof fn lemma_wsum_add(es: Seq<Entry>, f: spec_fn(Seq<u16>) -> nat, g: spec_fn(Seq<u16>) -> nat, h: spec_fn(Seq<u16>) -> nat)
    requires
        forall|w: Seq<u16>| #[trigger] h(w) == f(w) + g(w),
    ensures
        wsum(es, h) == wsum(es, f) + wsum(es, g),
    decreases es.len(),
{
    if es.len() > 0 {
        let e = es.last();
        lemma_wsum_add(es.drop_last(), f, g, h);
        vstd::arithmetic::mul::lemma_mul_is_distributive_add(e.1 as int, f(e.0) as int, g(e.0) as int);
    }
}

/// The first `i` weighted words and the next one.
pub proof fn lemma_entries_take(es: Seq<Entry>, i: int, p: u32)
    requires
        0 <= i < es.len(),
    ensures
        total(es.take(i + 1), p) == total(es.take(i), p) + es[i].1 * occ(es[i].0, p),
        weight(es.take(i + 1)) == weight(es.take(i)) + es[i].1 * es[i].0.len(),
        occurs(es.take(i + 1), p) == (occurs(es.take(i), p) || occ(es[i].0, p) > 0),
{
    lemma_wsum_take(es, i, |w: Seq<u16>| occ(w, p));
    lemma_wsum_take(es, i, |w: Seq<u16>| w.len());
}

/// Weighted words with one more at the end.
pub proof fn lemma_entries_push(es: Seq<Entry>, e: Entry, p: u32)
    ensures
        total(es.push(e), p) == total(es, p) + e.1 * occ(e.0, p),
        weight(es.push(e)) == weight(es) + e.1 * e.0.len(),
        occurs(es.push(e), p) == (occurs(es, p) || occ(e.0, p) > 0),
{
    lemma_wsum_push(es, e, |w: Seq<u16>| occ(w, p));
    lemma_wsum_push(es, e, |w: Seq<u16>| w.len());
}

/// The weighted count of a pair in the first weighted words grows with their number.
pub proof fn lemma_total_prefix(es: Seq<Entry>, i: int, p: u32)
    requires
        0 <= i <= es.len(),
    ensures
        total(es.take(i), p) <= total(es, p),
        weight(es.take(i)) <= weight(es),
{
    lemma_wsum_prefix(es, i, |w: Seq<u16>| occ(w, p));
    lemma_wsum_prefix(es, i, |w: Seq<u16>| w.len());
}

/// A pair occurs in weighted words no more often than their weighted length.
pub proof fn lemma_total_weight(es: Seq<Entry>, p: u32)
    ensures
        total(es, p) <= weight(es),
{
    assert forall|w: Seq<u16>| #[trigger] occ(w, p) <= w.len() by {
        lemma_occ_len(w, p);
    }
    lemma_wsum_le(es, |w: Seq<u16>| occ(w, p), |w: Seq<u16>| w.len());
}

/// The pair counts that merging `(a, b)` into `x` takes away from weighted words.
pub open spec fn removed_total(es: Seq<Entry>, a: u16, b: u16, x: u16, p: u32) -> nat {
    wsum(es, |w: Seq<u16>| removed_events(None, w, a, b, x, p))
}

/// The pair counts that merging `(a, b)` into `x` adds to weighted words.
pub open spec fn added_total(es: Seq<Entry>, a: u16, b: u16, x: u16, p: u32) -> nat {
    wsum(es, |w: Seq<u16>| added_events(None, w, a, b, x, p))
}

/// Whether merging `(a, b)` into `x` takes anything away from the count of `p`
/// in any of the words, whatever their weights.
pub open spec fn removes_any(es: Seq<Entry>, a: u16, b: u16, x: u16, p: u32) -> bool {
    any(es, |w: Seq<u16>| removed_events(None, w, a, b, x, p))
}

/// Whether merging `(a, b)` into `x` adds anything to the count of `p` in any of
/// the words, whatever their weights.
pub open spec fn adds_any(es: Seq<Entry>, a: u16, b: u16, x: u16, p: u32) -> bool {
    any(es, |w: Seq<u16>| added_events(None, w, a, b, x, p))
}

/// Weighted words with one fewer at the end, merged.
proof fn lemma_merge_all_drop_last(es: Seq<Entry>, a: u16, b: u16, x: u16)
    requires
        es.len() > 0,
    ensures
        merge_all(es, a, b, x).drop_last() == merge_all(es.drop_last(), a, b, x),
        merge_all(es, a, b, x).last() == (merge(es.last().0, a, b, x), es.last().1),
{
    assert(merge_all(es, a, b, x).drop_last() =~= merge_all(es.drop_last(), a, b, x));
}

/// The counting law of a merge over weighted words: the pair counts after the
/// merge plus what it takes away equal the pair counts before plus what it adds.
pub proof fn lemma_merge_all_counts(es: Seq<Entry>, a: u16, b: u16, x: u16, p: u32)
    ensures
        total(merge_all(es, a, b, x), p) + removed_total(es, a, b, x, p) == total(es, p) + added_total(
            es,
            a,
            b,
            x,
            p,
        ),
    decreases es.len(),
{
    if es.len() > 0 {
        let e = es.last();
        let m = e.1 as int;
        lemma_merge_all_counts(es.drop_last(), a, b, x, p);
        lemma_merge_all_drop_last(es, a, b, x);
        lemma_merge_counts(None, e.0, a, b, x, p);
        let o1 = occ(merge(e.0, a, b, x), p) as int;
        let o0 = occ(e.0, p) as int;
        let r = removed_events(None, e.0, a, b, x, p) as int;
        let d = added_events(None, e.0, a, b, x, p) as int;
        assert(o1 + r == o0 + d);
        vstd::arithmetic::mul::lemma_mul_is_distributive_add(m, o1, r);
        vstd::arithmetic::mul::lemma_mul_is_distributive_add(m, o0, d);
    }
}

/// Merging never makes weighted words longer.
pub proof fn lemma_merge_all_weight(es: Seq<Entry>, a: u16, b: u16, x: u16)
    ensures
        weight(merge_all(es, a, b, x)) <= weight(es),
    decreases es.len(),
{
    if es.len() > 0 {
        let e = es.last();
        lemma_merge_all_weight(es.drop_last(), a, b, x);
        lemma_merge_all_drop_last(es, a, b, x);
        lemma_merge_len(e.0, a, b, x);
        vstd::arithmetic::mul::lemma_mul_inequality(merge(e.0, a, b, x).len() as int, e.0.len() as int, e.1 as int);
        assert(e.1 * merge(e.0, a, b, x).len() == merge(e.0, a, b, x).len() * e.1) by (nonlinear_arith);
        assert(e.1 * e.0.len() == e.0.len() * e.1) by (nonlinear_arith);
    }
}

/// When the new id is neither id of the pair, a merge takes away, and adds, at
/// most one count of any one pair per weighted element.
pub proof fn lemma_delta_bounds(es: Seq<Entry>, a: u16, b: u16, x: u16, p: u32)
    requires
        a != x,
        b != x,
    ensures
        removed_total(es, a, b, x, p) <= weight(es),
        added_total(es, a, b, x, p) <= weight(es),
{
    let fr = |w: Seq<u16>| removed_events(None, w, a, b, x, p);
    let fa = |w: Seq<u16>| added_events(None, w, a, b, x, p);
    let fl = |w: Seq<u16>| w.len();
    assert forall|w: Seq<u16>| #[trigger] fr(w) <= fl(w) by {
        lemma_removed_len(None, w, a, b, x, p);
    }
    assert forall|w: Seq<u16>| #[trigger] fa(w) <= fl(w) by {
        lemma_events_bound(None, w, a, b, x, p);
    }
    lemma_wsum_le(es, fr, fl);
    lemma_wsum_le(es, fa, fl);
}

/// When the new id differs from both ids of the pair, a word loses, for any one
/// pair, at most one count per element (one more when it follows an element
/// other than the new id).
pub proof fn lemma_removed_len(prev: Option<u16>, rest: Seq<u16>, a: u16, b: u16, x: u16, p: u32)
    requires
        a != x,
        b != x,
    ensures
        removed_events(prev, rest, a, b, x, p) <= rest.len() + ind(prev is Some && prev->0 != x),
    decreases rest.len(),
{
    if rest.len() >= 2 && rest[0] == a && rest[1] == b {
        lemma_removed_len(Some(x), rest.skip(2), a, b, x, p);
        lemma_pack_unpack(a, b);
        match prev {
            Some(c) => lemma_pack_unpack(c, a),
            None => {},
        }
        match after_site(rest) {
            Some(r) => lemma_pack_unpack(b, r),
            None => {},
        }
    } else if rest.len() > 0 {
        lemma_removed_len(Some(rest[0]), rest.skip(1), a, b, x, p);
    }
}

/// Every id of a word is below `n`.
pub open spec fn ids_below(w: Seq<u16>, n: nat) -> bool {
    forall|j: int| 0 <= j < w.len() ==> #[trigger] w[j] < n
}

/// Every id of every weighted word is below `n`.
pub open spec fn entries_below(es: Seq<Entry>, n: nat) -> bool {
    forall|i: int| 0 <= i < es.len() ==> ids_below(#[trigger] es[i].0, n)
}

/// Merging into an id below `n` keeps every id below `n`.
pub proof fn lemma_merge_below(w: Seq<u16>, a: u16, b: u16, x: u16, n: nat)
    requires
        ids_below(w, n),
        x < n,
    ensures
        ids_below(merge(w, a, b, x), n),
    decreases w.len(),
{
    if w.len() >= 2 && w[0] == a && w[1] == b {
        lemma_merge_below(w.skip(2), a, b, x, n);
        let t = merge(w.skip(2), a, b, x);
        assert forall|j: int| 0 <= j < t.len() + 1 implies #[trigger] (seq![x] + t)[j] < n by {
            if j > 0 {
                assert((seq![x] + t)[j] == t[j - 1]);
            }
        }
    } else if w.len() > 0 {
        lemma_merge_below(w.skip(1), a, b, x, n);
        let t = merge(w.skip(1), a, b, x);
        assert forall|j: int| 0 <= j < t.len() + 1 implies #[trigger] (seq![w[0]] + t)[j] < n by {
            if j > 0 {
                assert((seq![w[0]] + t)[j] == t[j - 1]);
            }
        }
    }
}

/// A pair that occurs in a word is made of ids of the word.
pub proof fn lemma_occ_below(w: Seq<u16>, p: u32, n: nat)
    requires
        ids_below(w, n),
        occ(w, p) > 0,
    ensures
        pair_hi(p) < n,
        pair_lo(p) < n,
    decreases w.len(),
{
    if pack(w[0], w[1]) == p {
        lemma_pack_unpack(w[0], w[1]);
    } else {
        lemma_occ_below(w.drop_first(), p, n);
    }
}

/// A pair a merge adds is made of the new id and ids of the word.
pub proof fn lemma_added_below(prev: Option<u16>, rest: Seq<u16>, a: u16, b: u16, x: u16, p: u32, n: nat)
    requires
        ids_below(rest, n),
        prev matches Some(c) ==> c < n,
        x < n,
        added_events(prev, rest, a, b, x, p) > 0,
    ensures
        pair_hi(p) < n,
        pair_lo(p) < n,
    decreases rest.len(),
{
    if rest.len() >= 2 && rest[0] == a && rest[1] == b {
        if site_added(prev, after_site(rest), x, p) > 0 {
            if prev is Some && pack(prev->0, x) == p {
                lemma_pack_unpack(prev->0, x);
            } else {
                lemma_pack_unpack(x, rest[2]);
            }
        } else {
            lemma_added_below(Some(x), rest.skip(2), a, b, x, p, n);
        }
    } else {
        lemma_added_below(Some(rest[0]), rest.skip(1), a, b, x, p, n);
    }
}

/// A positive weighted sum has a word with a positive measure.
pub proof fn lemma_wsum_pos(es: Seq<Entry>, f: spec_fn(Seq<u16>) -> nat) -> (i: int)
    requires
        wsum(es, f) > 0,
    ensures
        0 <= i < es.len(),
        f(es[i].0) > 0,
    decreases es.len(),
{
    if wsum(es.drop_last(), f) > 0 {
        lemma_wsum_pos(es.drop_last(), f)
    } else {
        let e = es.last();
        if f(e.0) == 0 {
            lemma_mul_zero(e.1 as int, f(e.0) as int);
        }
        (es.len() - 1) as int
    }
}

/// A measure positive on some word makes `any` hold.
pub proof fn lemma_any_pos(es: Seq<Entry>, f: spec_fn(Seq<u16>) -> nat) -> (i: int)
    requires
        any(es, f),
    ensures
        0 <= i < es.len(),
        f(es[i].0) > 0,
    decreases es.len(),
{
    if any(es.drop_last(), f) {
        lemma_any_pos(es.drop_last(), f)
    } else {
        (es.len() - 1) as int
    }
}

} // verus!
