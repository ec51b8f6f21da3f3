//! Splitting a corpus: where its chunks begin and end, so that chunk borders fall
//! on special tokens, and the pieces of text between special tokens.
use vstd::prelude::*;
use vstd::string::*;
use vstd::utf8::*;

use crate::error::CustomError;
use crate::file::tokens_view;
use crate::text::str_from_utf8;
use crate::types::{Span, TokenBytes};

verus! {

/// Whether `needle` occurs in `hay` at position `i`.
pub open spec fn occurs_at(hay: Seq<u8>, needle: Seq<u8>, i: int) -> bool {
    &&& 0 <= i
    &&& i + needle.len() <= hay.len()
    &&& hay.subrange(i, i + needle.len()) == needle
}

/// Whether some non-empty needle occurs in `hay` at position `i`.
pub open spec fn needle_at(hay: Seq<u8>, needles: Seq<Seq<u8>>, i: int) -> bool {
    exists|t: int| 0 <= t < needles.len() && needles[t].len() > 0 && #[trigger] occurs_at(hay, needles[t], i)
}

/// Whether `i` is the first position of `hay` where a non-empty needle occurs.
pub open spec fn first_needle_at(hay: Seq<u8>, needles: Seq<Seq<u8>>, i: int) -> bool {
    &&& needle_at(hay, needles, i)
    &&& forall|j: int| 0 <= j < i ==> !#[trigger] needle_at(hay, needles, j)
}

/// Whether `needle` occurs in `hay` at position `i`, byte by byte.
fn occurs_at_exec(hay: &[u8], needle: &[u8], i: usize) -> (r: bool)
    ensures
        r == occurs_at(hay@, needle@, i as int),
{
    if needle.len() > hay.len() || i > hay.len() - needle.len() {
        return false;
    }
    let mut j: usize = 0;
    while j < needle.len()
        invariant
            i + needle.len() <= hay.len(),
            j <= needle.len(),
            forall|k: int| 0 <= k < j ==> hay@[i + k] == needle@[k],
        decreases needle.len() - j,
    {
        if hay[i + j] != needle[j] {
            proof {
                assert(hay@.subrange(i as int, i + needle.len())[j as int] != needle@[j as int]);
            }
            return false;
        }
        j += 1;
    }
    proof {
        assert(hay@.subrange(i as int, i + needle.len()) =~= needle@);
    }
    true
}

/// Whether some non-empty needle occurs in `hay` at position `i`.
fn needle_at_exec(hay: &[u8], needles: &[TokenBytes], i: usize) -> (r: bool)
    ensures
        r == needle_at(hay@, tokens_view(needles@), i as int),
{
    let ghost tv = tokens_view(needles@);
    for t in 0..needles.len()
        invariant
            tv == tokens_view(needles@),
            forall|u: int| 0 <= u < t ==> !(tv[u].len() > 0 && #[trigger] occurs_at(hay@, tv[u], i as int)),
    {
        let needle: &TokenBytes = &needles[t];
        if needle.len() > 0 && occurs_at_exec(hay, needle.as_slice(), i) {
            proof {
                assert(tv[t as int] == needle@);
            }
            return true;
        }
        proof {
            assert(tv[t as int] == needle@);
        }
    }
    false
}

/// The first position of `chunk` where one of the non-empty special tokens
/// occurs, or `None` when none occurs.
pub fn find_special_tokens(chunk: &[u8], special_tokens_bytes: &[TokenBytes]) -> (r: Option<usize>)
    ensures
        r matches Some(i) ==> first_needle_at(chunk@, tokens_view(special_tokens_bytes@), i as int),
        r is None ==> forall|j: int| !#[trigger] needle_at(chunk@, tokens_view(special_tokens_bytes@), j),
{
    let ghost tv = tokens_view(special_tokens_bytes@);
    for i in 0..chunk.len()
        invariant
            tv == tokens_view(special_tokens_bytes@),
            forall|j: int| 0 <= j < i ==> !#[trigger] needle_at(chunk@, tv, j),
    {
        if needle_at_exec(chunk, special_tokens_bytes, i) {
            return Some(i);
        }
    }
    proof {
        assert forall|j: int| !#[trigger] needle_at(chunk@, tv, j) by {
            if needle_at(chunk@, tv, j) {
                let t = choose|t: int| 0 <= t < tv.len() && tv[t].len() > 0 && #[trigger] occurs_at(chunk@, tv[t], j);
                assert(occurs_at(chunk@, tv[t], j));
            }
        }
    }
    None
}

/// A needle found first at two positions was found at one.
proof fn lemma_first_unique(hay: Seq<u8>, needles: Seq<Seq<u8>>, i: int, j: int)
    requires
        first_needle_at(hay, needles, i),
        first_needle_at(hay, needles, j),
    ensures
        i == j,
{
    if i < j {
        assert(!needle_at(hay, needles, i));
    } else if j < i {
        assert(!needle_at(hay, needles, j));
    }
}

/// The bytes of each special token.
pub open spec fn token_bytes(tokens: Seq<String>) -> Seq<Seq<u8>> {
    tokens.map_values(|t: String| encode_utf8(t@))
}

/// The window of at most 4096 bytes of `content` that starts at `pos`.
pub open spec fn mini_window(content: Seq<u8>, pos: int) -> Seq<u8> {
    content.subrange(pos, if pos + 4096 < content.len() { pos + 4096 } else { content.len() as int })
}

/// Where a chunk border found by scanning from `pos` falls: at the first special
/// token that lies wholly inside the first 4096-byte window, counted from `pos`,
/// that holds one; at the end of the content when no window does.
pub open spec fn scan_boundary(content: Seq<u8>, needles: Seq<Seq<u8>>, pos: int) -> int
    decreases content.len() + 4096 - pos,
{
    if pos < 0 || pos >= content.len() {
        content.len() as int
    } else if exists|j: int| first_needle_at(mini_window(content, pos), needles, j) {
        pos + choose|j: int| first_needle_at(mini_window(content, pos), needles, j)
    } else {
        scan_boundary(content, needles, pos + 4096)
    }
}

/// The start of chunk `bi` when chunks are about `chunk_size` bytes long: the
/// border found by scanning from `bi * chunk_size`, or from the start of the
/// chunk before when that lies further.
pub open spec fn chunk_start(content: Seq<u8>, needles: Seq<Seq<u8>>, chunk_size: int, bi: nat) -> int
    decreases bi,
{
    if bi == 0 {
        0
    } else {
        let prev = chunk_start(content, needles, chunk_size, (bi - 1) as nat);
        let start = if bi * chunk_size < prev { prev } else { bi * chunk_size };
        scan_boundary(content, needles, start)
    }
}

/// The chunk borders before duplicates are dropped: the start of each of the
/// `k` chunks, then the end of the content.
pub open spec fn raw_boundaries(content: Seq<u8>, needles: Seq<Seq<u8>>, k: nat) -> Seq<int> {
    Seq::new(
        k + 1,
        |i: int|
            if i < k {
                chunk_start(content, needles, (content.len() as int) / (k as int), i as nat)
            } else {
                content.len() as int
            },
    )
}

/// Positions as integers.
pub open spec fn positions(s: Seq<usize>) -> Seq<int> {
    s.map_values(|x: usize| x as int)
}

/// Whether a sequence of positions is strictly increasing.
pub open spec fn strictly_increasing(s: Seq<usize>) -> bool {
    forall|i: int, j: int| 0 <= i < j < s.len() ==> s[i] < s[j]
}

/// A scan for a border ends between where it starts and the end of the content.
proof fn lemma_scan_bounds(content: Seq<u8>, needles: Seq<Seq<u8>>, pos: int)
    requires
        0 <= pos <= content.len(),
    ensures
        pos <= scan_boundary(content, needles, pos) <= content.len(),
    decreases content.len() + 4096 - pos,
{
    if pos < content.len() {
        let w = mini_window(content, pos);
        if exists|j: int| first_needle_at(w, needles, j) {
            let j = choose|j: int| first_needle_at(w, needles, j);
            let t = choose|t: int| 0 <= t < needles.len() && needles[t].len() > 0 && #[trigger] occurs_at(w, needles[t], j);
            assert(occurs_at(w, needles[t], j));
        } else if pos + 4096 <= content.len() {
            lemma_scan_bounds(content, needles, pos + 4096);
        }
    }
}

/// Chunk starts never go backwards and stay within the content.
proof fn lemma_chunk_start_bounds(content: Seq<u8>, needles: Seq<Seq<u8>>, chunk_size: int, bi: nat, k: nat)
    requires
        0 <= chunk_size,
        bi < k,
        k * chunk_size <= content.len(),
    ensures
        0 <= chunk_start(content, needles, chunk_size, bi) <= content.len(),
        bi > 0 ==> chunk_start(content, needles, chunk_size, (bi - 1) as nat) <= chunk_start(content, needles, chunk_size, bi),
    decreases bi,
{
    if bi > 0 {
        lemma_chunk_start_bounds(content, needles, chunk_size, (bi - 1) as nat, k);
        let prev = chunk_start(content, needles, chunk_size, (bi - 1) as nat);
        vstd::arithmetic::mul::lemma_mul_inequality(bi as int, k as int, chunk_size);
        assert(bi * chunk_size <= k * chunk_size);
        let start = if bi * chunk_size < prev { prev } else { bi * chunk_size };
        assert(0 <= bi * chunk_size) by (nonlinear_arith)
            requires
                0 <= chunk_size,
        ;
        lemma_scan_bounds(content, needles, start);
    }
}

/// Scans for a chunk border from `start`, window by window.
fn scan_from(content: &[u8], needles: &Vec<TokenBytes>, start: usize) -> (r: usize)
    requires
        start <= content@.len(),
    ensures
        r == scan_boundary(content@, tokens_view(needles@), start as int),
{
    let n = content.len();
    let ghost tv = tokens_view(needles@);
    let mut pos = start;
    while pos < n
        invariant
            n == content@.len(),
            start <= pos <= n,
            tv == tokens_view(needles@),
            scan_boundary(content@, tv, start as int) == scan_boundary(content@, tv, pos as int),
        decreases n - pos,
    {
        let end = if n - pos < 4096 { n } else { pos + 4096 };
        let window = &content[pos..end];
        proof {
            assert(window@ == mini_window(content@, pos as int));
        }
        match find_special_tokens(window, needles.as_slice()) {
            Some(at) => {
                proof {
                    let j = choose|j: int| first_needle_at(mini_window(content@, pos as int), tv, j);
                    lemma_first_unique(window@, tv, at as int, j);
                    let t = choose|t: int| 0 <= t < tv.len() && tv[t].len() > 0 && #[trigger] occurs_at(window@, tv[t], at as int);
                    assert(occurs_at(window@, tv[t], at as int));
                }
                return pos + at;
            },
            None => {
                let ghost old_pos = pos as int;
                proof {
                    assert(!exists|j: int| first_needle_at(mini_window(content@, pos as int), tv, j));
                    assert(scan_boundary(content@, tv, old_pos) == scan_boundary(content@, tv, old_pos + 4096));
                }
                if n - pos <= 4096 {
                    pos = n;
                    proof {
                        assert(scan_boundary(content@, tv, old_pos + 4096) == n);
                        assert(scan_boundary(content@, tv, n as int) == n);
                    }
                } else {
                    pos = pos + 4096;
                }
            },
        }
    }
    n
}

/// Where to split `content` into about `desired_num_chunks` chunks (0 counts as
/// 1) so that every chunk but the first starts at a special token: the start of
/// each chunk and the end of the content, in increasing order, each once.
pub fn find_chunk_boundaries(content: &[u8], desired_num_chunks: usize, special_tokens: &[String]) -> (r: Vec<usize>)
    ensures
        desired_num_chunks <= 1 ==> r@ == seq![0usize, content@.len() as usize],
        desired_num_chunks > 1 ==> strictly_increasing(r@),
        desired_num_chunks > 1 ==> forall|v: int| #[trigger] positions(r@).contains(v) <==> raw_boundaries(
            content@,
            token_bytes(special_tokens@),
            desired_num_chunks as nat,
        ).contains(v),
{
    let n = content.len();
    let k = if desired_num_chunks == 0 { 1 } else { desired_num_chunks };
    let chunk_size = n / k;
    if k == 1 {
        let mut r: Vec<usize> = Vec::new();
        r.push(0);
        r.push(n);
        proof {
            assert(r@ =~= seq![0usize, content@.len() as usize]);
        }
        return r;
    }
    let mut needles: Vec<TokenBytes> = Vec::new();
    for t in 0..special_tokens.len()
        invariant
            needles@.len() == t,
            tokens_view(needles@) == token_bytes(special_tokens@).take(t as int),
    {
        let token: &str = special_tokens[t].as_str();
        let bytes = token.as_bytes_vec();
        proof {
            assert(token@ == special_tokens@[t as int]@);
            assert(bytes@ == encode_utf8(token@));
            assert(token_bytes(special_tokens@)[t as int] == encode_utf8(special_tokens@[t as int]@));
        }
        let ghost before = needles@;
        needles.push(bytes);
        proof {
            assert forall|j: int| 0 <= j < t + 1 implies #[trigger] tokens_view(needles@)[j] == token_bytes(
                special_tokens@,
            ).take(t + 1)[j] by {
                if j < t {
                    assert(needles@[j] == before[j]);
                    assert(tokens_view(before)[j] == token_bytes(special_tokens@).take(t as int)[j]);
                } else {
                    assert(needles@[j] == bytes);
                    assert(tokens_view(needles@)[j] == bytes@);
                }
            }
            assert(tokens_view(needles@) =~= token_bytes(special_tokens@).take(t + 1));
        }
    }
    let ghost tv = tokens_view(needles@);
    proof {
        assert(tv =~= token_bytes(special_tokens@));
        vstd::arithmetic::div_mod::lemma_fundamental_div_mod(n as int, k as int);
        assert(0 <= n as int % k as int) by {
            vstd::arithmetic::div_mod::lemma_mod_pos_bound(n as int, k as int);
        }
        assert(k * chunk_size <= n) by (nonlinear_arith)
            requires
                n == k * (n / k) + n % k,
                n % k >= 0,
                chunk_size == n / k,
        ;
    }
    let ghost raw = raw_boundaries(content@, tv, k as nat);
    let mut bounds: Vec<usize> = Vec::new();
    for i in 0..k
        invariant
            k * chunk_size <= n,
            bounds@.len() == i,
            forall|j: int| 0 <= j < i ==> #[trigger] bounds@[j] == j * chunk_size,
    {
        proof {
            vstd::arithmetic::mul::lemma_mul_inequality(i as int, k as int, chunk_size as int);
            vstd::arithmetic::mul::lemma_mul_is_commutative(i as int, chunk_size as int);
        }
        bounds.push(i * chunk_size);
    }
    bounds.push(n);
    proof {
        assert(bounds@[0] == 0 * chunk_size);
        assert(0 * chunk_size == 0) by (nonlinear_arith);
    }
    for bi in 1..k
        invariant
            2 <= k,
            n == content@.len(),
            chunk_size == (n as int) / (k as int),
            k * chunk_size <= n,
            tv == tokens_view(needles@),
            bounds@.len() == k + 1,
            bounds@[k as int] == n,
            forall|j: int| 0 <= j < bi ==> #[trigger] bounds@[j] == chunk_start(content@, tv, chunk_size as int, j as nat),
            forall|j: int| bi <= j < k ==> #[trigger] bounds@[j] == j * chunk_size,
    {
        let prev = bounds[bi - 1];
        let start = if bounds[bi] < prev { prev } else { bounds[bi] };
        proof {
            lemma_chunk_start_bounds(content@, tv, chunk_size as int, (bi - 1) as nat, k as nat);
            assert(start == (if bi * chunk_size < prev { prev as int } else { bi * chunk_size }));
            vstd::arithmetic::mul::lemma_mul_inequality(bi as int, k as int, chunk_size as int);
        }
        let found = scan_from(content, &needles, start);
        bounds.set(bi, found);
    }
    proof {
        assert forall|j: int| 0 <= j < k implies #[trigger] bounds@[j] == raw[j] by {}
        assert(bounds@[k as int] == raw[k as int]);
        assert forall|i: int, j: int| 0 <= i <= j <= k implies bounds@[i] <= bounds@[j] by {
            if j < k {
                assert forall|a: int| 0 < a < k implies bounds@[a - 1] <= #[trigger] bounds@[a] by {
                    lemma_chunk_start_bounds(content@, tv, chunk_size as int, a as nat, k as nat);
                }
                lemma_sorted_steps(bounds@, i, j);
            } else if i < k {
                lemma_chunk_start_bounds(content@, tv, chunk_size as int, i as nat, k as nat);
            }
        }
    }
    let mut out: Vec<usize> = Vec::new();
    for i in 0..bounds.len()
        invariant
            forall|a: int, b: int| 0 <= a <= b < bounds@.len() ==> bounds@[a] <= bounds@[b],
            strictly_increasing(out@),
            i > 0 ==> out@.len() > 0 && out@.last() == bounds@[i - 1],
            i == 0 ==> out@.len() == 0,
            forall|v: usize| #[trigger] out@.contains(v) <==> bounds@.take(i as int).contains(v),
    {
        let b = bounds[i];
        let ghost before = out@;
        if out.len() == 0 || out[out.len() - 1] != b {
            out.push(b);
        }
        proof {
            assert(bounds@.take(i + 1) =~= bounds@.take(i as int).push(b));
            assert forall|v: usize| #[trigger] out@.contains(v) <==> bounds@.take(i + 1).contains(v) by {
                if out@.contains(v) {
                    let a = choose|a: int| 0 <= a < out@.len() && out@[a] == v;
                    if a < before.len() {
                        assert(before[a] == v);
                        assert(before.contains(v));
                        assert(bounds@.take(i as int).contains(v));
                        let c = choose|c: int| 0 <= c < i && #[trigger] bounds@.take(i as int)[c] == v;
                        assert(bounds@.take(i + 1)[c] == v);
                    } else {
                        assert(v == b);
                        assert(bounds@.take(i + 1)[i as int] == v);
                    }
                }
                if bounds@.take(i + 1).contains(v) {
                    let a = choose|a: int| 0 <= a < i + 1 && #[trigger] bounds@.take(i + 1)[a] == v;
                    if a < i {
                        assert(bounds@.take(i as int)[a] == v);
                        assert(bounds@.take(i as int).contains(v));
                        assert(before.contains(v));
                        let c = choose|c: int| 0 <= c < before.len() && before[c] == v;
                        assert(out@[c] == v);
                    } else if out@.len() > before.len() {
                        assert(out@[before.len() as int] == v);
                    } else {
                        assert(out@[out@.len() - 1] == v);
                    }
                }
            }
        }
    }
    proof {
        assert(bounds@.take(bounds@.len() as int) =~= bounds@);
        assert forall|v: int| #[trigger] positions(out@).contains(v) <==> raw.contains(v) by {
            let ints = positions(out@);
            if ints.contains(v) {
                let a = choose|a: int| 0 <= a < ints.len() && ints[a] == v;
                assert(out@.contains(out@[a]));
                let c = choose|c: int| 0 <= c < bounds@.len() && bounds@[c] == out@[a];
                assert(raw[c] == v);
            }
            if raw.contains(v) {
                let c = choose|c: int| 0 <= c < raw.len() && raw[c] == v;
                let x = bounds@[c];
                assert(bounds@.take(bounds@.len() as int)[c] == x);
                assert(bounds@.take(bounds@.len() as int).contains(x));
                assert(out@.contains(x));
                let a = choose|a: int| 0 <= a < out@.len() && out@[a] == x;
                assert(ints[a] == v);
            }
        }
    }
    out
}

/// Steps that never go down make a sequence that never goes down.
proof fn lemma_sorted_steps(s: Seq<usize>, i: int, j: int)
    requires
        0 <= i <= j < s.len(),
        forall|a: int| 0 < a <= j ==> s[a - 1] <= #[trigger] s[a],
    ensures
        s[i] <= s[j],
    decreases j - i,
{
    if i < j {
        lemma_sorted_steps(s, i, j - 1);
    }
}

/// The index of the first special token, in list order from the `t`-th, that
/// occurs in `hay` at position `i`; empty tokens never match. This is how an
/// alternation of the tokens' literals matches at one position.
pub open spec fn alt_match_index(hay: Seq<u8>, needles: Seq<Seq<u8>>, i: int, t: int) -> Option<int>
    decreases needles.len() - t,
{
    if t < 0 || t >= needles.len() {
        None
    } else if needles[t].len() > 0 && occurs_at(hay, needles[t], i) {
        Some(t)
    } else {
        alt_match_index(hay, needles, i, t + 1)
    }
}

/// The pieces of `hay` between the special tokens found by scanning from the
/// left, each token matched where it first occurs and the scan going on after
/// it; a piece runs from `last`, the end of the token before it, and pieces are
/// offset by `base`. Empty pieces are left out.
pub open spec fn pieces_from(hay: Seq<u8>, needles: Seq<Seq<u8>>, last: int, i: int, base: int) -> Seq<(int, int)>
    decreases hay.len() - i,
{
    if i >= hay.len() {
        if last < hay.len() {
            seq![(base + last, base + hay.len())]
        } else {
            seq![]
        }
    } else {
        match alt_match_index(hay, needles, i, 0) {
            Some(t) => if 0 <= t < needles.len() && 0 < needles[t].len() && i + needles[t].len() <= hay.len() {
                let l = needles[t].len();
                (if last < i {
                    seq![(base + last, base + i)]
                } else {
                    seq![]
                }) + pieces_from(hay, needles, i + l, i + l, base)
            } else {
                pieces_from(hay, needles, last, i + 1, base)
            },
            None => pieces_from(hay, needles, last, i + 1, base),
        }
    }
}

/// Spans as pairs of integers.
pub open spec fn spans_view(v: Seq<(usize, usize)>) -> Seq<(int, int)> {
    v.map_values(|s: (usize, usize)| (s.0 as int, s.1 as int))
}

/// Whether any special token is not empty.
pub open spec fn any_nonempty(tokens: Seq<String>) -> bool {
    exists|t: int| 0 <= t < tokens.len() && (#[trigger] tokens[t])@.len() > 0
}

/// The bytes of the `i`-th chunk between consecutive borders.
pub open spec fn chunk_bytes(content: Seq<u8>, boundaries: Seq<usize>, i: int) -> Seq<u8> {
    content.subrange(boundaries[i] as int, boundaries[i + 1] as int)
}

/// Whether there is at least one border and, where two or more bound chunks,
/// they are in order and within the content.
pub open spec fn borders_fit(content: Seq<u8>, boundaries: Seq<usize>) -> bool {
    &&& boundaries.len() >= 1
    &&& forall|i: int| 0 <= i < boundaries.len() - 1 ==> boundaries[i] <= #[trigger] boundaries[i + 1]
    &&& boundaries.len() >= 2 ==> forall|i: int| 0 <= i < boundaries.len() ==> #[trigger] boundaries[i] <= content.len()
}

/// The index of the first special token, in list order, that occurs at position `i`.
pub fn alt_match_exec(hay: &[u8], needles: &Vec<TokenBytes>, i: usize) -> (r: Option<usize>)
    ensures
        r matches Some(t) ==> alt_match_index(hay@, tokens_view(needles@), i as int, 0) == Some(t as int),
        r is None ==> alt_match_index(hay@, tokens_view(needles@), i as int, 0) is None,
{
    let ghost tv = tokens_view(needles@);
    let mut t: usize = 0;
    while t < needles.len()
        invariant
            tv == tokens_view(needles@),
            t <= needles@.len(),
            alt_match_index(hay@, tv, i as int, 0) == alt_match_index(hay@, tv, i as int, t as int),
        decreases needles@.len() - t,
    {
        let needle: &TokenBytes = &needles[t];
        proof {
            assert(tv[t as int] == needle@);
        }
        if needle.len() > 0 && occurs_at_exec(hay, needle.as_slice(), i) {
            return Some(t);
        }
        t += 1;
    }
    None
}

/// A match of the alternation is one of the tokens occurring there.
pub proof fn lemma_alt_match_occurs(hay: Seq<u8>, needles: Seq<Seq<u8>>, i: int, t: int)
    requires
        alt_match_index(hay, needles, i, t) is Some,
    ensures
        0 <= alt_match_index(hay, needles, i, t)->0 < needles.len(),
        needles[alt_match_index(hay, needles, i, t)->0].len() > 0,
        occurs_at(hay, needles[alt_match_index(hay, needles, i, t)->0], i),
    decreases needles.len() - t,
{
    if !(needles[t].len() > 0 && occurs_at(hay, needles[t], i)) {
        lemma_alt_match_occurs(hay, needles, i, t + 1);
    }
}

/// The pieces of `chunk` between special tokens, offset by `base`.
fn split_pieces(chunk: &[u8], needles: &Vec<TokenBytes>, base: usize) -> (pieces: Vec<(usize, usize)>)
    requires
        base + chunk@.len() <= usize::MAX,
    ensures
        spans_view(pieces@) == pieces_from(chunk@, tokens_view(needles@), 0, 0, base as int),
{
    let ghost tv = tokens_view(needles@);
    let ghost hay = chunk@;
    let mut pieces: Vec<(usize, usize)> = Vec::new();
    let mut last: usize = 0;
    let mut i: usize = 0;
    while i < chunk.len()
        invariant
            tv == tokens_view(needles@),
            hay == chunk@,
            base + hay.len() <= usize::MAX,
            last <= i <= hay.len(),
            spans_view(pieces@) + pieces_from(hay, tv, last as int, i as int, base as int) == pieces_from(
                hay,
                tv,
                0,
                0,
                base as int,
            ),
        decreases hay.len() - i,
    {
        match alt_match_exec(chunk, needles, i) {
            Some(t) => {
                proof {
                    lemma_alt_match_occurs(hay, tv, i as int, 0);
                    assert(tv[t as int] == needles@[t as int]@);
                    assert(occurs_at(hay, tv[t as int], i as int));
                }
                let l = needles[t].len();
                let ghost old_pieces = pieces@;
                let ghost rest = pieces_from(hay, tv, (i + l) as int, (i + l) as int, base as int);
                if last < i {
                    pieces.push((base + last, base + i));
                    proof {
                        assert(spans_view(pieces@) =~= spans_view(old_pieces).push((base + last, base + i)));
                        assert(spans_view(pieces@) + rest =~= spans_view(old_pieces) + (seq![
                            (base + last, base + i),
                        ] + rest));
                    }
                } else {
                    proof {
                        assert(seq![] + rest =~= rest);
                    }
                }
                last = i + l;
                i = i + l;
            },
            None => {
                i += 1;
            },
        }
    }
    let ghost old_pieces = pieces@;
    if last < chunk.len() {
        pieces.push((base + last, base + chunk.len()));
        proof {
            assert(spans_view(pieces@) =~= spans_view(old_pieces).push((base + last, base + chunk.len())));
        }
    } else {
        proof {
            assert(spans_view(old_pieces) + seq![] =~= spans_view(old_pieces));
        }
    }
    pieces
}

/// Finds, in each chunk between consecutive borders, the pieces of text between
/// special tokens. When no special token is given, the whole content is one
/// piece of one chunk. A chunk that is not UTF-8 gives an error.
pub fn find_pretoken_spans(content: &[u8], boundaries: &[usize], special_tokens: &[String]) -> (r: Result<
    Vec<Vec<Span>>,
    CustomError,
>)
    requires
        any_nonempty(special_tokens@) ==> borders_fit(content@, boundaries@),
    ensures
        !any_nonempty(special_tokens@) ==> (r matches Ok(all) && all@.len() == 1 && all@[0]@ == seq![
            (0usize, content@.len() as usize),
        ]),
        any_nonempty(special_tokens@) ==> (r is Err <==> exists|i: int|
            0 <= i < boundaries@.len() - 1 && !valid_utf8(#[trigger] chunk_bytes(content@, boundaries@, i))),
        r matches Err(e) ==> e is InvalidUtf8,
        any_nonempty(special_tokens@) ==> (r matches Ok(all) ==> all@.len() == boundaries@.len() - 1 && forall|i: int|
            0 <= i < all@.len() ==> spans_view(#[trigger] all@[i]@) == pieces_from(
                chunk_bytes(content@, boundaries@, i),
                token_bytes(special_tokens@),
                0,
                0,
                boundaries@[i] as int,
            )),
{
    let mut any = false;
    for t in 0..special_tokens.len()
        invariant
            any == exists|u: int| 0 <= u < t && (#[trigger] special_tokens@[u])@.len() > 0,
    {
        if !special_tokens[t].as_str().is_empty() {
            any = true;
        }
    }
    if !any {
        let mut one: Vec<Span> = Vec::new();
        one.push((0, content.len()));
        let mut all: Vec<Vec<Span>> = Vec::new();
        all.push(one);
        proof {
            assert(all@[0]@ =~= seq![(0usize, content@.len() as usize)]);
        }
        return Ok(all);
    }
    let mut needles: Vec<TokenBytes> = Vec::new();
    for t in 0..special_tokens.len()
        invariant
            any_nonempty(special_tokens@),
            needles@.len() == t,
            tokens_view(needles@) == token_bytes(special_tokens@).take(t as int),
    {
        let token: &str = special_tokens[t].as_str();
        let bytes = token.as_bytes_vec();
        let ghost before = needles@;
        needles.push(bytes);
        proof {
            assert forall|j: int| 0 <= j < t + 1 implies #[trigger] tokens_view(needles@)[j] == token_bytes(
                special_tokens@,
            ).take(t + 1)[j] by {
                if j < t {
                    assert(needles@[j] == before[j]);
                    assert(tokens_view(before)[j] == token_bytes(special_tokens@).take(t as int)[j]);
                } else {
                    assert(needles@[j] == bytes);
                    assert(token@ == special_tokens@[t as int]@);
                }
            }
            assert(tokens_view(needles@) =~= token_bytes(special_tokens@).take(t + 1));
        }
    }
    let ghost tv = tokens_view(needles@);
    proof {
        assert(tv =~= token_bytes(special_tokens@));
        assert(any_nonempty(special_tokens@));
    }
    let mut all: Vec<Vec<Span>> = Vec::new();
    let chunks = boundaries.len() - 1;
    for i in 0..chunks
        invariant
            any_nonempty(special_tokens@),
            chunks == boundaries@.len() - 1,
            borders_fit(content@, boundaries@),
            tv == tokens_view(needles@),
            tv == token_bytes(special_tokens@),
            all@.len() == i,
            forall|j: int| 0 <= j < i ==> valid_utf8(#[trigger] chunk_bytes(content@, boundaries@, j)),
            forall|j: int| 0 <= j < i ==> spans_view(#[trigger] all@[j]@) == pieces_from(
                chunk_bytes(content@, boundaries@, j),
                tv,
                0,
                0,
                boundaries@[j] as int,
            ),
    {
        let start = boundaries[i];
        let end = boundaries[i + 1];
        proof {
            assert(boundaries@[i as int] <= boundaries@[i + 1]);
        }
        let chunk: &[u8] = &content[start..end];
        proof {
            assert(chunk@ == chunk_bytes(content@, boundaries@, i as int));
        }
        match str_from_utf8(chunk) {
            Err(e) => {
                return Err(CustomError::InvalidUtf8(e));
            },
            Ok(_) => {},
        }
        let pieces = split_pieces(chunk, &needles, start);
        all.push(pieces);
        proof {
            assert forall|j: int| 0 <= j < i + 1 implies spans_view(#[trigger] all@[j]@) == pieces_from(
                chunk_bytes(content@, boundaries@, j),
                tv,
                0,
                0,
                boundaries@[j] as int,
            ) by {}
        }
    }
    Ok(all)
}

/// Whether chunk borders are in order and within the content, as
/// `find_pretoken_spans` needs them.
pub fn borders_fit_content(content: &[u8], boundaries: &[usize]) -> (r: bool)
    ensures
        r == borders_fit(content@, boundaries@),
{
    if boundaries.len() == 0 {
        return false;
    }
    if boundaries.len() == 1 {
        return true;
    }
    for i in 0..boundaries.len()
        invariant
            boundaries@.len() >= 2,
            forall|j: int| 0 <= j < i ==> #[trigger] boundaries@[j] <= content@.len(),
            forall|j: int| 0 <= j < i - 1 ==> boundaries@[j] <= #[trigger] boundaries@[j + 1],
    {
        if boundaries[i] > content.len() {
            return false;
        }
        if i > 0 && boundaries[i - 1] > boundaries[i] {
            proof {
                assert(boundaries@[(i - 1) as int + 1] == boundaries@[i as int]);
            }
            return false;
        }
    }
    true
}

} // verus!

verus! {

/// A chunk border scanned for from `pos` is the first special token lying
/// wholly inside the first 4096-byte window, counted from `pos` on, that holds
/// one: when the windows at `pos`, `pos + 4096`, ... before the `k`-th hold no
/// token and the `k`-th holds its first one at offset `j`, the border is at
/// `pos + 4096 k + j`.
pub proof fn law_scan_finds_first_window_token(content: Seq<u8>, needles: Seq<Seq<u8>>, pos: int, k: nat, j: int)
    requires
        0 <= pos,
        pos + 4096 * k < content.len(),
        forall|m: int, i: int| 0 <= m < k ==> !#[trigger] needle_at(mini_window(content, pos + 4096 * m), needles, i),
        first_needle_at(mini_window(content, pos + 4096 * k), needles, j),
    ensures
        scan_boundary(content, needles, pos) == pos + 4096 * k + j,
    decreases k,
{
    if k == 0 {
        let j0 = choose|j: int| first_needle_at(mini_window(content, pos), needles, j);
        lemma_first_unique(mini_window(content, pos), needles, j0, j);
    } else {
        assert(!exists|i: int| first_needle_at(mini_window(content, pos), needles, i)) by {
            if exists|i: int| first_needle_at(mini_window(content, pos), needles, i) {
                let i = choose|i: int| first_needle_at(mini_window(content, pos), needles, i);
                assert(needle_at(mini_window(content, pos + 4096 * 0), needles, i));
            }
        }
        assert forall|m: int, i: int| 0 <= m < k - 1 implies !#[trigger] needle_at(
            mini_window(content, (pos + 4096) + 4096 * m),
            needles,
            i,
        ) by {
            assert(pos + 4096 + 4096 * m == pos + 4096 * (m + 1));
            assert(!needle_at(mini_window(content, pos + 4096 * (m + 1)), needles, i));
        }
        assert(pos + 4096 + 4096 * ((k - 1) as nat) == pos + 4096 * k);
        law_scan_finds_first_window_token(content, needles, pos + 4096, (k - 1) as nat, j);
    }
}

/// When no 4096-byte window from `pos` on holds a special token, the scan from
/// `pos` ends at the end of the content.
pub proof fn law_scan_without_token_ends(content: Seq<u8>, needles: Seq<Seq<u8>>, pos: int)
    requires
        0 <= pos,
        forall|m: int, i: int|
            0 <= m && pos + 4096 * m < content.len() ==> !#[trigger] needle_at(mini_window(content, pos + 4096 * m), needles, i),
    ensures
        scan_boundary(content, needles, pos) == content.len(),
    decreases content.len() + 4096 - pos,
{
    if pos < content.len() {
        assert(!exists|i: int| first_needle_at(mini_window(content, pos), needles, i)) by {
            if exists|i: int| first_needle_at(mini_window(content, pos), needles, i) {
                let i = choose|i: int| first_needle_at(mini_window(content, pos), needles, i);
                assert(needle_at(mini_window(content, pos + 4096 * 0), needles, i));
            }
        }
        assert forall|m: int, i: int|
            0 <= m && (pos + 4096) + 4096 * m < content.len() implies !#[trigger] needle_at(
            mini_window(content, (pos + 4096) + 4096 * m),
            needles,
            i,
        ) by {
            assert(pos + 4096 + 4096 * m == pos + 4096 * (m + 1));
            assert(!needle_at(mini_window(content, pos + 4096 * (m + 1)), needles, i));
        }
        law_scan_without_token_ends(content, needles, pos + 4096);
    }
}

} // verus!

verus! {

/// Where several special tokens start at one position, the one listed first is
/// matched: the match is a non-empty token occurring there, and no earlier listed
/// non-empty token occurs there; there is no match only when none occurs.
pub proof fn law_alt_match_first_listed(hay: Seq<u8>, needles: Seq<Seq<u8>>, i: int, t0: int)
    requires
        0 <= t0,
    ensures
        alt_match_index(hay, needles, i, t0) matches Some(t) ==> t0 <= t < needles.len() && needles[t].len() > 0
            && occurs_at(hay, needles[t], i) && forall|u: int|
            t0 <= u < t && needles[u].len() > 0 ==> !#[trigger] occurs_at(hay, needles[u], i),
        alt_match_index(hay, needles, i, t0) is None ==> forall|u: int|
            t0 <= u < needles.len() && needles[u].len() > 0 ==> !#[trigger] occurs_at(hay, needles[u], i),
    decreases needles.len() - t0,
{
    if t0 < needles.len() && !(needles[t0].len() > 0 && occurs_at(hay, needles[t0], i)) {
        law_alt_match_first_listed(hay, needles, i, t0 + 1);
    }
}

} // verus!
