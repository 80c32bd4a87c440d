//! Lyndon factorization: Duval's algorithm, the same boundaries read off an
//! inverse suffix array, and what follows from them.

use crate::rank_arrays::lemma_rank_order;
use crate::rotation::{is_least_rotation, lemma_rotation_reflexive, rotation_le, rotation_lt};
use crate::text::{
    is_inverse_of, is_suffix_array, lcp_len, lemma_lcp_len_is, lemma_lcp_len_props,
    lemma_lcp_len_symmetric, lemma_suffix_lt_shift, lemma_suffix_lt_total,
    lemma_suffix_lt_transitive, lemma_word_lt_by_mismatch, lemma_word_not_lt_prefix, ranked_before,
    same_at, suffix_lt, word_lt,
};
use vstd::prelude::*;

verus! {

/// `w` is a Lyndon word: not empty, and strictly smaller than each of its
/// proper suffixes.
pub open spec fn is_lyndon(w: Seq<u8>) -> bool {
    w.len() > 0 && forall|s: int| 0 < s < w.len() ==> #[trigger] suffix_lt(w, 0, s)
}

/// The suffix of `t` at `k` is smaller than every suffix that starts before
/// `k`. The Lyndon factors of `t` start at exactly these positions.
pub open spec fn is_factor_start(t: Seq<u8>, k: int) -> bool {
    forall|j: int| 0 <= j < k ==> #[trigger] suffix_lt(t, k, j)
}

/// Compared from `k` and from `s` on, the text first differs before `e`, and
/// it holds the smaller byte on the side of `k`.
pub open spec fn starts_smaller_within(t: Seq<u8>, k: int, s: int, e: int) -> bool {
    let l = lcp_len(t, k, s) as int;
    s + l < e && t[k + l] < t[s + l]
}

/// The bytes of `t` from `k` up to `e` form a Lyndon word.
pub open spec fn is_lyndon_window(t: Seq<u8>, k: int, e: int) -> bool {
    forall|s: int| k < s < e ==> #[trigger] starts_smaller_within(t, k, s, e)
}

/// Where the factor number `x` begins, given the end positions of all factors.
pub open spec fn factor_begin(ends: Seq<usize>, x: int) -> int {
    if x == 0 {
        0
    } else {
        ends[x - 1] + 1
    }
}

/// The factor number `x` is a Lyndon word.
pub open spec fn factor_is_lyndon(t: Seq<u8>, ends: Seq<usize>, x: int) -> bool {
    is_lyndon_window(t, factor_begin(ends, x), ends[x] + 1)
}

/// `ends` holds, in increasing order, the last position of every Lyndon
/// factor of `t`.
pub open spec fn is_lyndon_ends(t: Seq<u8>, ends: Seq<usize>) -> bool {
    &&& t.len() == 0 ==> ends.len() == 0
    &&& t.len() > 0 ==> ends.len() > 0 && ends.last() == t.len() - 1
    &&& forall|x: int, y: int| 0 <= x < y < ends.len() ==> #[trigger] ends[x] < #[trigger] ends[y]
    &&& forall|x: int| 0 <= x < ends.len() ==> is_factor_start(t, #[trigger] ends[x] + 1)
    &&& forall|k: int|
        0 < k <= t.len() && #[trigger] is_factor_start(t, k) ==> ends.contains((k - 1) as usize)
}

/// The byte at `m` recurs `p` positions later.
pub open spec fn periodic_at(t: Seq<u8>, m: int, p: int) -> bool {
    t[m] == t[m + p]
}

/// Every byte from `from` up to `to` recurs `p` positions later.
pub open spec fn is_periodic(t: Seq<u8>, from: int, to: int, p: int) -> bool {
    forall|m: int| from <= m < to ==> #[trigger] periodic_at(t, m, p)
}

/// A Lyndon word that is followed by a copy of itself makes the copy a
/// Lyndon word too.
proof fn lemma_window_shift(t: Seq<u8>, k: int, p: int)
    requires
        0 <= k,
        1 <= p,
        k + 2 * p <= t.len(),
        is_lyndon_window(t, k, k + p),
        is_periodic(t, k, k + p, p),
    ensures
        is_lyndon_window(t, k + p, k + 2 * p),
{
    assert forall|s: int| k + p < s < k + 2 * p implies #[trigger] starts_smaller_within(
        t,
        k + p,
        s,
        k + 2 * p,
    ) by {
        let s0 = s - p;
        assert(starts_smaller_within(t, k, s0, k + p));
        let l = lcp_len(t, k, s0) as int;
        lemma_lcp_len_props(t, k, s0);
        assert forall|x: int| 0 <= x < l implies #[trigger] same_at(t, k + p, s, x) by {
            assert(same_at(t, k, s0, x));
            assert(periodic_at(t, k + x, p));
            assert(periodic_at(t, s0 + x, p));
        }
        assert(periodic_at(t, k + l, p));
        assert(periodic_at(t, s0 + l, p));
        lemma_lcp_len_is(t, k + p, s, l);
    }
}

/// Where the scan stops, the period that it found starts again with a
/// smaller suffix.
proof fn lemma_next_start_smaller(t: Seq<u8>, k: int, i: int, j: int)
    requires
        0 <= k <= i < j <= t.len(),
        is_periodic(t, k, i, j - i),
        j == t.len() || t[j] < t[i],
    ensures
        suffix_lt(t, k + (j - i), k),
{
    let p = j - i;
    assert forall|x: int| 0 <= x < i - k implies #[trigger] same_at(t, k + p, k, x) by {
        assert(periodic_at(t, k + x, p));
    }
    lemma_lcp_len_is(t, k + p, k, i - k);
}

/// No byte of a window made of copies of a Lyndon word is smaller than the
/// first.
proof fn lemma_window_min(t: Seq<u8>, k: int, i: int, p: int, m: int)
    requires
        0 <= k <= i,
        1 <= p,
        i + p <= t.len(),
        is_periodic(t, k, i, p),
        is_lyndon_window(t, k, k + p),
        k <= m < i + p,
    ensures
        t[k] <= t[m],
    decreases m,
{
    if m == k {
    } else if m < k + p {
        assert(starts_smaller_within(t, k, m, k + p));
        lemma_lcp_len_props(t, k, m);
        if lcp_len(t, k, m) > 0 {
            assert(same_at(t, k, m, 0));
        }
    } else {
        lemma_window_min(t, k, i, p, m - p);
        assert(periodic_at(t, m - p, p));
    }
}

/// A window of copies of a Lyndon word, followed by a byte that is larger
/// than the period asks for, is a Lyndon word as a whole.
proof fn lemma_window_extend_at(t: Seq<u8>, k: int, i: int, j: int, s: int)
    requires
        0 <= k <= i < j < t.len(),
        is_periodic(t, k, i, j - i),
        is_lyndon_window(t, k, k + (j - i)),
        t[i] < t[j],
        k < s <= j,
    ensures
        starts_smaller_within(t, k, s, j + 1),
    decreases s,
{
    let p = j - i;
    if s < k + p {
        assert(starts_smaller_within(t, k, s, k + p));
    } else if s == k + p {
        assert forall|x: int| 0 <= x < i - k implies #[trigger] same_at(t, k, s, x) by {
            assert(periodic_at(t, k + x, p));
        }
        lemma_lcp_len_is(t, k, s, i - k);
    } else {
        let s0 = s - p;
        lemma_window_extend_at(t, k, i, j, s0);
        let l0 = lcp_len(t, k, s0) as int;
        lemma_lcp_len_props(t, k, s0);
        let d = j - s;
        if l0 < d {
            assert forall|x: int| 0 <= x < l0 implies #[trigger] same_at(t, k, s, x) by {
                assert(same_at(t, k, s0, x));
                assert(periodic_at(t, s0 + x, p));
            }
            assert(periodic_at(t, s0 + l0, p));
            lemma_lcp_len_is(t, k, s, l0);
        } else {
            assert forall|x: int| 0 <= x < d implies #[trigger] same_at(t, k, s, x) by {
                assert(same_at(t, k, s0, x));
                assert(periodic_at(t, s0 + x, p));
            }
            if d < l0 {
                assert(same_at(t, k, s0, d));
            }
            lemma_lcp_len_is(t, k, s, d);
        }
    }
}

proof fn lemma_window_extend(t: Seq<u8>, k: int, i: int, j: int)
    requires
        0 <= k <= i < j < t.len(),
        is_periodic(t, k, i, j - i),
        is_lyndon_window(t, k, k + (j - i)),
        t[i] < t[j],
    ensures
        is_lyndon_window(t, k, j + 1),
{
    assert forall|s: int| k < s < j + 1 implies #[trigger] starts_smaller_within(t, k, s, j + 1) by {
        lemma_window_extend_at(t, k, i, j, s);
    }
}

/// After a Lyndon word that starts a factor, the next factor starts right
/// behind it and nowhere inside it.
proof fn lemma_emit(t: Seq<u8>, k: int, i: int, j: int)
    requires
        0 <= k <= i < j <= t.len(),
        is_periodic(t, k, i, j - i),
        is_lyndon_window(t, k, k + (j - i)),
        j == t.len() || t[j] < t[i],
        is_factor_start(t, k),
    ensures
        is_factor_start(t, k + (j - i)),
        forall|s: int| k < s < k + (j - i) ==> !#[trigger] is_factor_start(t, s),
{
    let p = j - i;
    let k1 = k + p;
    lemma_next_start_smaller(t, k, i, j);
    assert forall|s: int| k < s < k1 implies !#[trigger] is_factor_start(t, s) by {
        assert(starts_smaller_within(t, k, s, k1));
        assert(suffix_lt(t, k, s));
        lemma_suffix_lt_total(t, k, s);
    }
    assert forall|q: int| 0 <= q < k1 implies #[trigger] suffix_lt(t, k1, q) by {
        if q < k {
            assert(suffix_lt(t, k, q));
            lemma_suffix_lt_transitive(t, k1, k, q);
        } else if q > k {
            assert(starts_smaller_within(t, k, q, k1));
            assert(suffix_lt(t, k, q));
            lemma_suffix_lt_transitive(t, k1, k, q);
        }
    }
}

/// Duval's algorithm: the last position of every Lyndon factor of `text`, in
/// increasing order. The factors are Lyndon words, and none of them is
/// smaller than the one that follows it.
pub fn duval(text: &[u8]) -> (ends: Vec<usize>)
    ensures
        is_lyndon_ends(text@, ends@),
        forall|x: int| 0 <= x < ends.len() ==> #[trigger] factor_is_lyndon(text@, ends@, x),
        forall|x: int| 0 <= x < ends.len() ==> is_lyndon(#[trigger] factor_word(text@, ends@, x)),
        forall|x: int|
            0 <= x && x + 1 < ends.len() ==> !word_lt(
                #[trigger] factor_word(text@, ends@, x),
                factor_word(text@, ends@, x + 1),
            ),
{
    let mut ending_positions: Vec<usize> = Vec::new();
    let mut k: usize = 0;
    let n = text.len();
    while k < n
        invariant
            n == text.len(),
            k <= n,
            is_factor_start(text@, k as int),
            ending_positions.len() == 0 ==> k == 0,
            ending_positions.len() > 0 ==> ending_positions@.last() == k - 1,
            forall|x: int, y: int|
                0 <= x < y < ending_positions.len() ==> #[trigger] ending_positions[x]
                    < #[trigger] ending_positions[y],
            forall|x: int|
                0 <= x < ending_positions.len() ==> is_factor_start(
                    text@,
                    #[trigger] ending_positions[x] + 1,
                ),
            forall|s: int|
                0 < s <= k && #[trigger] is_factor_start(text@, s) ==> ending_positions@.contains(
                    (s - 1) as usize,
                ),
            forall|x: int|
                0 <= x < ending_positions.len() ==> #[trigger] factor_is_lyndon(
                    text@,
                    ending_positions@,
                    x,
                ),
        decreases n - k,
    {
        let mut i: usize = k;
        let mut j: usize = k + 1;
        while j != n && text[i] <= text[j]
            invariant
                n == text.len(),
                k <= i < j <= n,
                is_periodic(text@, k as int, i as int, j - i),
                is_lyndon_window(text@, k as int, k + (j - i)),
            decreases n - j,
        {
            if text[i] < text[j] {
                proof {
                    lemma_window_extend(text@, k as int, i as int, j as int);
                    lemma_window_min(text@, k as int, i as int, j - i, i as int);
                }
                i = k;
            }
            if text[i] == text[j] {
                proof {
                    assert(periodic_at(text@, i as int, j - i));
                }
                i += 1;
            }
            j += 1;
        }
        let ghost first = k;
        loop
            invariant_except_break
                k <= i,
                is_lyndon_window(text@, k as int, k + (j - i)),
            invariant
                first <= k,
                n == text.len(),
                i < j <= n,
                k <= j,
                is_periodic(text@, k as int, i as int, j - i),
                j == n || text[j as int] < text[i as int],
                is_factor_start(text@, k as int),
                ending_positions.len() == 0 ==> k == 0,
                ending_positions.len() > 0 ==> ending_positions@.last() == k - 1,
                forall|x: int, y: int|
                    0 <= x < y < ending_positions.len() ==> #[trigger] ending_positions[x]
                        < #[trigger] ending_positions[y],
                forall|x: int|
                    0 <= x < ending_positions.len() ==> is_factor_start(
                        text@,
                        #[trigger] ending_positions[x] + 1,
                    ),
                forall|s: int|
                    0 < s <= k && #[trigger] is_factor_start(text@, s)
                        ==> ending_positions@.contains((s - 1) as usize),
                forall|x: int|
                    0 <= x < ending_positions.len() ==> #[trigger] factor_is_lyndon(
                        text@,
                        ending_positions@,
                        x,
                    ),
            ensures
                first < k <= n,
            decreases n - k,
        {
            proof {
                lemma_emit(text@, k as int, i as int, j as int);
            }
            let ghost before = ending_positions@;
            let ghost k0 = k;
            k += j - i;
            ending_positions.push(k - 1);
            proof {
                let now = ending_positions@;
                assert forall|s: int| 0 < s <= k && #[trigger] is_factor_start(text@, s) implies now.contains(
                    (s - 1) as usize,
                ) by {
                    if s <= k0 {
                        assert(before.contains((s - 1) as usize));
                        let x = choose|x: int| 0 <= x < before.len() && before[x] == (s - 1) as usize;
                        assert(now[x] == (s - 1) as usize);
                    } else {
                        assert(now[now.len() - 1] == (s - 1) as usize);
                    }
                }
                assert forall|x: int| 0 <= x < now.len() implies #[trigger] factor_is_lyndon(
                    text@,
                    now,
                    x,
                ) by {
                    if x < before.len() {
                        assert(factor_is_lyndon(text@, before, x));
                        assert(factor_begin(now, x) == factor_begin(before, x));
                    } else {
                        assert(factor_begin(now, x) == k0);
                    }
                }
            }
            if k >= i {
                break ;
            }
            proof {
                lemma_window_shift(text@, k0 as int, j - i);
            }
        }
    }
    proof {
        let ends = ending_positions@;
        assert forall|x: int| 0 <= x < ends.len() implies is_lyndon(
            #[trigger] factor_word(text@, ends, x),
        ) by {
            lemma_factors_are_lyndon(text@, ends, x);
        }
        assert forall|x: int| 0 <= x && x + 1 < ends.len() implies !word_lt(
            #[trigger] factor_word(text@, ends, x),
            factor_word(text@, ends, x + 1),
        ) by {
            lemma_factors_do_not_increase(text@, ends, x);
        }
    }
    ending_positions
}

/// The bytes of a window that is a Lyndon word, taken out of the text, are a
/// Lyndon word.
pub proof fn lemma_window_is_lyndon(t: Seq<u8>, a: int, e: int)
    requires
        0 <= a < e <= t.len(),
        is_lyndon_window(t, a, e),
    ensures
        is_lyndon(t.subrange(a, e)),
{
    let w = t.subrange(a, e);
    assert forall|s: int| 0 < s < w.len() implies #[trigger] suffix_lt(w, 0, s) by {
        assert(starts_smaller_within(t, a, a + s, e));
        let l = lcp_len(t, a, a + s) as int;
        lemma_lcp_len_props(t, a, a + s);
        assert forall|x: int| 0 <= x < l implies #[trigger] same_at(w, 0, s, x) by {
            assert(same_at(t, a, a + s, x));
        }
        lemma_lcp_len_is(w, 0, s, l);
    }
}

/// The entry at `k` is smaller than every entry before it.
pub open spec fn is_prefix_min(isa: Seq<i32>, k: int) -> bool {
    forall|j: int| 0 <= j < k ==> #[trigger] isa[j] > isa[k]
}

/// `ends` holds `isa.len() - 1` last, and before it, in increasing order,
/// every `k - 1` for which the entry of `isa` at `k` is smaller than all
/// entries before it.
pub open spec fn is_isa_ends(isa: Seq<i32>, ends: Seq<usize>) -> bool {
    &&& ends.len() > 0 && ends.last() == isa.len() - 1
    &&& forall|x: int, y: int| 0 <= x < y < ends.len() ==> #[trigger] ends[x] < #[trigger] ends[y]
    &&& forall|x: int| 0 <= x < ends.len() - 1 ==> is_prefix_min(isa, #[trigger] ends[x] + 1)
    &&& forall|k: int|
        0 < k < isa.len() && #[trigger] is_prefix_min(isa, k) ==> ends.contains((k - 1) as usize)
}

/// Lyndon factorization via the inverse suffix array: a factor ends wherever
/// the rank of the next suffix is below every rank seen so far.
pub fn isa_lyndon_factorization(isa: &[i32]) -> (ends: Vec<usize>)
    requires
        isa.len() > 0,
    ensures
        is_isa_ends(isa@, ends@),
{
    let mut ending_positions: Vec<usize> = Vec::new();
    let mut k: usize = 0;
    let mut current_val = isa[k];
    let n = isa.len();
    k += 1;
    let ghost mut low: int = 0;
    while k < n
        invariant
            n == isa.len(),
            1 <= k <= n,
            0 <= low < k,
            isa[low] == current_val,
            forall|j: int| 0 <= j < k ==> current_val <= #[trigger] isa[j],
            forall|x: int| 0 <= x < ending_positions.len() ==> #[trigger] ending_positions[x] + 1 < k,
            forall|x: int, y: int|
                0 <= x < y < ending_positions.len() ==> #[trigger] ending_positions[x]
                    < #[trigger] ending_positions[y],
            forall|x: int|
                0 <= x < ending_positions.len() ==> is_prefix_min(
                    isa@,
                    #[trigger] ending_positions[x] + 1,
                ),
            forall|s: int|
                0 < s < k && #[trigger] is_prefix_min(isa@, s) ==> ending_positions@.contains(
                    (s - 1) as usize,
                ),
        decreases n - k,
    {
        let ghost before = ending_positions@;
        if isa[k] < current_val {
            ending_positions.push(k - 1);
            current_val = isa[k];
            proof {
                low = k as int;
            }
        }
        proof {
            let now = ending_positions@;
            assert forall|s: int| 0 < s < k + 1 && #[trigger] is_prefix_min(isa@, s) implies now.contains(
                (s - 1) as usize,
            ) by {
                if s < k {
                    assert(before.contains((s - 1) as usize));
                    let x = choose|x: int| 0 <= x < before.len() && before[x] == (s - 1) as usize;
                    assert(now[x] == (s - 1) as usize);
                } else {
                    assert(now.len() == before.len() + 1);
                    assert(now[now.len() - 1] == (s - 1) as usize);
                }
            }
        }
        k += 1;
    }
    let ghost before = ending_positions@;
    ending_positions.push(n - 1);
    proof {
        let now = ending_positions@;
        assert forall|s: int| 0 < s < n && #[trigger] is_prefix_min(isa@, s) implies now.contains(
            (s - 1) as usize,
        ) by {
            assert(before.contains((s - 1) as usize));
            let x = choose|x: int| 0 <= x < before.len() && before[x] == (s - 1) as usize;
            assert(now[x] == (s - 1) as usize);
        }
    }
    ending_positions
}

/// Two increasing sequences with the same members are the same sequence.
pub proof fn lemma_increasing_same_members(a: Seq<usize>, b: Seq<usize>)
    requires
        forall|x: int, y: int| 0 <= x < y < a.len() ==> #[trigger] a[x] < #[trigger] a[y],
        forall|x: int, y: int| 0 <= x < y < b.len() ==> #[trigger] b[x] < #[trigger] b[y],
        forall|v: usize| a.contains(v) <==> b.contains(v),
    ensures
        a == b,
{
    if a.len() < b.len() {
        let x = a.len() as int;
        assert(b.contains(b[x]));
        let z = choose|z: int| 0 <= z < a.len() && a[z] == b[x];
        lemma_same_member_at(a, b, z);
    } else if b.len() < a.len() {
        let x = b.len() as int;
        assert(a.contains(a[x]));
        let z = choose|z: int| 0 <= z < b.len() && b[z] == a[x];
        lemma_same_member_at(a, b, z);
    }
    assert forall|x: int| 0 <= x < a.len() implies a[x] == b[x] by {
        lemma_same_member_at(a, b, x);
    }
    assert(a =~= b);
}

proof fn lemma_same_member_at(a: Seq<usize>, b: Seq<usize>, x: int)
    requires
        forall|x: int, y: int| 0 <= x < y < a.len() ==> #[trigger] a[x] < #[trigger] a[y],
        forall|x: int, y: int| 0 <= x < y < b.len() ==> #[trigger] b[x] < #[trigger] b[y],
        forall|v: usize| a.contains(v) <==> b.contains(v),
        0 <= x < a.len(),
        x < b.len(),
    ensures
        a[x] == b[x],
    decreases x,
{
    assert(a.contains(a[x]));
    let y = choose|y: int| 0 <= y < b.len() && b[y] == a[x];
    if y < x {
        lemma_same_member_at(a, b, y);
    }
    assert(b.contains(b[x]));
    let z = choose|z: int| 0 <= z < a.len() && a[z] == b[x];
    if z < x {
        lemma_same_member_at(a, b, z);
    }
}

/// The suffix at `k` starts a Lyndon factor exactly if its rank is below the
/// rank of every suffix that starts before it.
pub proof fn lemma_factor_start_by_rank(t: Seq<u8>, sa: Seq<i32>, isa: Seq<i32>, k: int)
    requires
        is_suffix_array(t, sa),
        is_inverse_of(isa, sa),
        0 <= k < t.len(),
    ensures
        is_factor_start(t, k) <==> is_prefix_min(isa, k),
{
    if is_factor_start(t, k) {
        assert forall|j: int| 0 <= j < k implies #[trigger] isa[j] > isa[k] by {
            assert(suffix_lt(t, k, j));
            assert(sa[isa[k] as int] == k);
            assert(sa[isa[j] as int] == j);
            lemma_rank_order(t, sa, isa[k] as int, isa[j] as int);
        }
    }
    if is_prefix_min(isa, k) {
        assert forall|j: int| 0 <= j < k implies #[trigger] suffix_lt(t, k, j) by {
            assert(isa[j] > isa[k]);
            assert(sa[isa[k] as int] == k);
            assert(sa[isa[j] as int] == j);
            assert(ranked_before(t, sa, isa[k] as int, isa[j] as int));
        }
    }
}

/// Duval's algorithm on a text and the factorization read off the inverse
/// suffix array of that text give the same boundaries.
pub proof fn lemma_lyndon_ends_agree(
    t: Seq<u8>,
    sa: Seq<i32>,
    isa: Seq<i32>,
    by_scan: Seq<usize>,
    by_rank: Seq<usize>,
)
    requires
        t.len() > 0,
        is_suffix_array(t, sa),
        is_inverse_of(isa, sa),
        is_lyndon_ends(t, by_scan),
        is_isa_ends(isa, by_rank),
    ensures
        by_scan == by_rank,
{
    let n = t.len() as int;
    assert forall|v: usize| by_scan.contains(v) <==> by_rank.contains(v) by {
        if by_scan.contains(v) {
            let x = choose|x: int| 0 <= x < by_scan.len() && by_scan[x] == v;
            assert(is_factor_start(t, by_scan[x] + 1));
            if x < by_scan.len() - 1 {
                assert(by_scan[x] < by_scan[by_scan.len() - 1]);
                lemma_factor_start_by_rank(t, sa, isa, v + 1);
                assert(by_rank.contains(((v + 1) - 1) as usize));
            } else {
                assert(by_rank[by_rank.len() - 1] == v);
            }
        }
        if by_rank.contains(v) {
            let x = choose|x: int| 0 <= x < by_rank.len() && by_rank[x] == v;
            if x < by_rank.len() - 1 {
                assert(by_rank[x] < by_rank[by_rank.len() - 1]);
                assert(is_prefix_min(isa, by_rank[x] + 1));
                lemma_factor_start_by_rank(t, sa, isa, v + 1);
                assert(by_scan.contains(((v + 1) - 1) as usize));
            } else {
                assert(by_scan[by_scan.len() - 1] == v);
            }
        }
    }
    lemma_increasing_same_members(by_scan, by_rank);
}

/// A Lyndon word inside a text that is written twice is at most as long as
/// the text.
proof fn lemma_doubled_window_short(t: Seq<u8>, a: int, e: int)
    requires
        0 <= a < e <= 2 * t.len(),
        is_lyndon_window(t + t, a, e),
    ensures
        e - a <= t.len(),
{
    let n = t.len() as int;
    let tt = t + t;
    if e - a > n {
        assert(starts_smaller_within(tt, a, a + n, e));
        let l = lcp_len(tt, a, a + n) as int;
        assert(tt[a + l] == tt[a + n + l]);
    }
}

/// In the text written twice, the start of the Lyndon factor that covers the
/// last position of the first copy is the start of a least rotation.
proof fn lemma_least_rotation(t: Seq<u8>, c: int, e: int)
    requires
        0 <= c < t.len(),
        t.len() <= e <= 2 * t.len(),
        is_factor_start(t + t, c),
        is_lyndon_window(t + t, c, e),
    ensures
        is_least_rotation(t, c),
{
    let n = t.len() as int;
    let tt = t + t;
    lemma_doubled_window_short(t, c, e);
    assert forall|r: int| 0 <= r < n implies #[trigger] rotation_le(t, c, r) by {
        lemma_lcp_len_symmetric(tt, c, r);
        lemma_lcp_len_props(tt, c, r);
        if r < c {
            assert(suffix_lt(tt, c, r));
        } else if r > c {
            assert(starts_smaller_within(tt, c, r, e));
        } else {
            lemma_rotation_reflexive(t, c);
        }
    }
    assert forall|r: int| c < r < n implies #[trigger] rotation_lt(t, c, r) by {
        assert(starts_smaller_within(tt, c, r, e));
    }
}

/// Where the least rotation of `text` starts; of several equal ones, the
/// last. It is the start of the Lyndon factor, in the text written twice,
/// that reaches the end of the first copy.
pub fn lyndon_conjugate(text: &[u8]) -> (start: usize)
    requires
        0 < text.len() <= usize::MAX / 2,
    ensures
        is_least_rotation(text@, start as int),
{
    let n = text.len();
    let mut doubletext: Vec<u8> = Vec::new();
    doubletext.extend_from_slice(text);
    doubletext.extend_from_slice(text);
    let mut factors = duval(doubletext.as_slice());
    let ghost tt = text@ + text@;
    let ghost ends = factors@;
    assert(doubletext@ == tt);
    factors.push(2 * n);
    proof {
        assert(factor_is_lyndon(tt, ends, 0));
        lemma_doubled_window_short(text@, 0, ends[0] + 1);
    }
    if factors[0] + 1 == n {
        proof {
            lemma_least_rotation(text@, 0, n as int);
        }
        return 0;
    }
    let mut x: usize = 0;
    while x < factors.len() - 1
        invariant
            n == text.len(),
            0 < n <= usize::MAX / 2,
            tt == text@ + text@,
            is_lyndon_ends(tt, ends),
            forall|y: int| 0 <= y < ends.len() ==> #[trigger] factor_is_lyndon(tt, ends, y),
            factors@ == ends.push((2 * n) as usize),
            x < factors.len(),
            factors[x as int] + 1 < n,
        decreases factors.len() - x,
    {
        if factors[x + 1] + 1 >= n {
            proof {
                assert(x + 1 < ends.len());
                assert(factor_is_lyndon(tt, ends, x + 1));
                assert(is_factor_start(tt, ends[x as int] + 1));
                assert(ends[x as int] < ends[x + 1]);
                assert(ends[x + 1] <= ends[ends.len() - 1]) by {
                    if x + 1 < ends.len() - 1 {
                        assert(ends[x + 1] < ends[ends.len() - 1]);
                    }
                }
                lemma_least_rotation(text@, ends[x as int] + 1, ends[x + 1] + 1);
            }
            return factors[x] + 1;
        }
        x += 1;
    }
    0
}

/// The suffix of `w` at `s` is a prefix of `w`, or it is larger than `w`.
pub open spec fn prefix_or_larger(w: Seq<u8>, s: int) -> bool {
    s + lcp_len(w, 0, s) == w.len() || w[lcp_len(w, 0, s) as int] < w[s + lcp_len(w, 0, s)]
}

/// No suffix of `w` is smaller than `w` without being a prefix of it: `w` is
/// a prefix of a power of a Lyndon word.
pub open spec fn is_prenecklace(w: Seq<u8>) -> bool {
    forall|s: int| 0 < s < w.len() ==> #[trigger] prefix_or_larger(w, s)
}

proof fn lemma_prenecklace_at(w: Seq<u8>, i: int, s: int)
    requires
        0 <= i < w.len(),
        is_periodic(w, 0, i, w.len() - i),
        is_lyndon_window(w, 0, w.len() - i),
        0 < s < w.len(),
    ensures
        prefix_or_larger(w, s),
    decreases s,
{
    let n = w.len() as int;
    let p = n - i;
    if s < p {
        assert(starts_smaller_within(w, 0, s, p));
    } else if s == p {
        assert forall|x: int| 0 <= x < i implies #[trigger] same_at(w, 0, s, x) by {
            assert(periodic_at(w, x, p));
        }
        lemma_lcp_len_is(w, 0, s, i);
    } else {
        let s0 = s - p;
        lemma_prenecklace_at(w, i, s0);
        let l0 = lcp_len(w, 0, s0) as int;
        lemma_lcp_len_props(w, 0, s0);
        let d = n - s;
        if l0 < d {
            assert forall|x: int| 0 <= x < l0 implies #[trigger] same_at(w, 0, s, x) by {
                assert(same_at(w, 0, s0, x));
                assert(periodic_at(w, s0 + x, p));
            }
            assert(periodic_at(w, s0 + l0, p));
            lemma_lcp_len_is(w, 0, s, l0);
        } else {
            assert forall|x: int| 0 <= x < d implies #[trigger] same_at(w, 0, s, x) by {
                assert(same_at(w, 0, s0, x));
                assert(periodic_at(w, s0 + x, p));
            }
            lemma_lcp_len_is(w, 0, s, d);
        }
    }
}

/// Whether the first `n` bytes of `text` are a prefix of a power of a Lyndon
/// word: whether the scan of Duval's algorithm reaches their end.
pub fn is_necklace(text: &[u8], n: usize) -> (reached: bool)
    requires
        1 <= n <= text.len(),
    ensures
        reached == is_prenecklace(text@.take(n as int)),
{
    let ghost w = text@.take(n as int);
    let mut i: usize = 0;
    let mut j: usize = 1;
    while j != n && text[i] <= text[j]
        invariant
            w == text@.take(n as int),
            n <= text.len(),
            0 <= i < j <= n,
            is_periodic(w, 0, i as int, j - i),
            is_lyndon_window(w, 0, j - i),
        decreases n - j,
    {
        if text[i] < text[j] {
            proof {
                lemma_window_extend(w, 0, i as int, j as int);
                lemma_window_min(w, 0, i as int, j - i, i as int);
            }
            i = 0;
        }
        if text[i] == text[j] {
            proof {
                assert(periodic_at(w, i as int, j - i));
            }
            i += 1;
        }
        j += 1;
    }
    if j != n {
        proof {
            let p = j - i;
            assert forall|x: int| 0 <= x < i implies #[trigger] same_at(w, 0, p, x) by {
                assert(periodic_at(w, x, p));
            }
            lemma_lcp_len_is(w, 0, p, i as int);
            assert(!prefix_or_larger(w, p));
        }
        return false;
    }
    proof {
        assert forall|s: int| 0 < s < w.len() implies #[trigger] prefix_or_larger(w, s) by {
            lemma_prenecklace_at(w, i as int, s);
        }
    }
    return true;
}

/// Whether `text` is a prefix of a power of a Lyndon word.
pub fn is_necklace_slice(text: &[u8]) -> (reached: bool)
    requires
        text.len() >= 1,
    ensures
        reached == is_prenecklace(text@),
{
    assert(text@.take(text.len() as int) =~= text@);
    is_necklace(text, text.len())
}

/// The `len` bytes from `a` on differ somewhere from the `len` bytes from
/// `b` on.
pub open spec fn blocks_differ(t: Seq<u8>, a: int, b: int, len: int) -> bool {
    exists|x: int| 0 <= x < len && #[trigger] t[a + x] != t[b + x]
}

/// The factor number `x + 1` counts as different from the factor number `x`:
/// it is of another length, or differs from it in some byte. Of the first two
/// factors the last byte is not looked at.
pub open spec fn factor_changes(t: Seq<u8>, ends: Seq<usize>, x: int) -> bool {
    let first = factor_begin(ends, x);
    let second = factor_begin(ends, x + 1);
    let first_len = ends[x] + 1 - first;
    let second_len = ends[x + 1] + 1 - second;
    first_len != second_len || blocks_differ(
        t,
        first,
        second,
        if x == 0 {
            first_len - 1
        } else {
            first_len
        },
    )
}

/// The number of factors among the second to the one numbered `k` that count
/// as different from the factor before them.
pub open spec fn changes_upto(t: Seq<u8>, ends: Seq<usize>, k: int) -> nat
    decreases k,
{
    if k <= 0 {
        0
    } else if factor_changes(t, ends, k - 1) {
        changes_upto(t, ends, k - 1) + 1
    } else {
        changes_upto(t, ends, k - 1)
    }
}

fn blocks_differ_exec(text: &[u8], a: usize, b: usize, len: usize) -> (differ: bool)
    requires
        a + len <= text.len(),
        b + len <= text.len(),
    ensures
        differ == blocks_differ(text@, a as int, b as int, len as int),
{
    let mut i: usize = 0;
    while i < len
        invariant
            i <= len,
            a + len <= text.len(),
            b + len <= text.len(),
            forall|x: int| 0 <= x < i ==> #[trigger] text[a + x] == text[b + x],
        decreases len - i,
    {
        if text[a + i] != text[b + i] {
            return true;
        }
        i += 1;
    }
    false
}

/// The number of different Lyndon factors of `text`. Equal factors stand
/// next to each other, so a factor is counted whenever it differs from the
/// one before it.
pub fn number_distinct_lyndon_factors(text: &[u8]) -> (count: usize)
    ensures
        text.len() == 0 ==> count == 0,
        text.len() > 0 ==> exists|ends: Seq<usize>| #[trigger]
            is_lyndon_ends(text@, ends) && count == 1 + changes_upto(text@, ends, ends.len() - 1),
{
    if text.len() == 0 {
        return 0;
    }
    let conjugates = duval(text);
    let ghost ends = conjugates@;
    if conjugates.len() == 1 {
        assert(changes_upto(text@, ends, 0) == 0);
        return 1;
    }
    let mut counter: usize = 1;
    proof {
        assert(ends[0] < ends[1]);
        assert(ends[1] <= ends[ends.len() - 1]) by {
            if 1 < ends.len() - 1 {
                assert(ends[1] < ends[ends.len() - 1]);
            }
        }
        assert(changes_upto(text@, ends, 0) == 0);
    }
    if conjugates[1] - conjugates[0] != 1 + conjugates[0] {
        counter += 1;
    } else {
        if blocks_differ_exec(text, 0, conjugates[0] + 1, conjugates[0]) {
            counter += 1;
        }
    }
    let mut it: usize = 1;
    while it < conjugates.len() - 1
        invariant
            ends == conjugates@,
            is_lyndon_ends(text@, ends),
            conjugates.len() >= 2,
            1 <= it <= conjugates.len() - 1,
            counter == 1 + changes_upto(text@, ends, it as int),
            counter <= it + 1,
        decreases conjugates.len() - it,
    {
        proof {
            assert(ends[it - 1] < ends[it as int]);
            assert(ends[it as int] < ends[it + 1]);
            assert(ends[it + 1] <= ends[ends.len() - 1]) by {
                if it + 1 < ends.len() - 1 {
                    assert(ends[it + 1] < ends[ends.len() - 1]);
                }
            }
        }
        if conjugates[it] - conjugates[it - 1] != conjugates[it + 1] - conjugates[it] {
            counter += 1;
        } else {
            if blocks_differ_exec(
                text,
                conjugates[it - 1] + 1,
                conjugates[it] + 1,
                conjugates[it] - conjugates[it - 1],
            ) {
                counter += 1;
            }
        }
        it += 1;
    }
    counter
}

/// The bytes of the factor number `x`.
pub open spec fn factor_word(t: Seq<u8>, ends: Seq<usize>, x: int) -> Seq<u8> {
    t.subrange(factor_begin(ends, x), ends[x] + 1)
}

/// Every factor that Duval's algorithm cuts off is a Lyndon word.
pub proof fn lemma_factors_are_lyndon(t: Seq<u8>, ends: Seq<usize>, x: int)
    requires
        is_lyndon_ends(t, ends),
        factor_is_lyndon(t, ends, x),
        0 <= x < ends.len(),
    ensures
        is_lyndon(factor_word(t, ends, x)),
{
    lemma_ends_in_range(t, ends, x);
    lemma_window_is_lyndon(t, factor_begin(ends, x), ends[x] + 1);
}

/// The factor number `x` lies inside the text and is not empty.
pub proof fn lemma_ends_in_range(t: Seq<u8>, ends: Seq<usize>, x: int)
    requires
        is_lyndon_ends(t, ends),
        0 <= x < ends.len(),
    ensures
        0 <= factor_begin(ends, x) <= ends[x] < t.len(),
{
    if x < ends.len() - 1 {
        assert(ends[x] < ends[ends.len() - 1]);
    }
    if x > 0 {
        assert(ends[x - 1] < ends[x]);
    }
}

/// The Lyndon factors of a text do not increase: no factor is smaller than
/// the factor that follows it.
pub proof fn lemma_factors_do_not_increase(t: Seq<u8>, ends: Seq<usize>, x: int)
    requires
        is_lyndon_ends(t, ends),
        forall|y: int| 0 <= y < ends.len() ==> #[trigger] factor_is_lyndon(t, ends, y),
        0 <= x,
        x + 1 < ends.len(),
    ensures
        !word_lt(factor_word(t, ends, x), factor_word(t, ends, x + 1)),
{
    lemma_ends_in_range(t, ends, x);
    lemma_ends_in_range(t, ends, x + 1);
    let a = factor_begin(ends, x);
    let b = factor_begin(ends, x + 1);
    let c = ends[x + 1] + 1;
    let first = factor_word(t, ends, x);
    let second = factor_word(t, ends, x + 1);
    let p = b - a;
    let q = c - b;
    assert(is_factor_start(t, ends[x] + 1));
    assert(suffix_lt(t, b, a));
    let l = lcp_len(t, b, a) as int;
    lemma_lcp_len_props(t, b, a);
    if l >= p && q > p {
        // the second factor would start with the first and go on
        assert forall|y: int| 0 <= y < p implies #[trigger] same_at(t, b, a, y) by {}
        lemma_suffix_lt_shift(t, b, a, p);
        assert(factor_is_lyndon(t, ends, x + 1));
        assert(starts_smaller_within(t, b, b + p, c));
        lemma_suffix_lt_total(t, b, b + p);
        assert(false);
    } else if l >= q {
        assert forall|y: int| 0 <= y < second.len() implies first[y] == second[y] by {
            assert(same_at(t, b, a, y));
        }
        lemma_word_not_lt_prefix(first, second);
    } else {
        assert forall|y: int| 0 <= y < l implies second[y] == first[y] by {
            assert(same_at(t, b, a, y));
        }
        lemma_word_lt_by_mismatch(second, first, l);
    }
}

/// A text has one list of Lyndon factors only.
pub proof fn lemma_lyndon_ends_unique(t: Seq<u8>, first: Seq<usize>, second: Seq<usize>)
    requires
        is_lyndon_ends(t, first),
        is_lyndon_ends(t, second),
    ensures
        first == second,
{
    assert forall|v: usize| first.contains(v) <==> second.contains(v) by {
        if first.contains(v) {
            let x = choose|x: int| 0 <= x < first.len() && first[x] == v;
            lemma_ends_in_range(t, first, x);
            assert(is_factor_start(t, first[x] + 1));
            assert(second.contains(((v + 1) - 1) as usize));
        }
        if second.contains(v) {
            let x = choose|x: int| 0 <= x < second.len() && second[x] == v;
            lemma_ends_in_range(t, second, x);
            assert(is_factor_start(t, second[x] + 1));
            assert(first.contains(((v + 1) - 1) as usize));
        }
    }
    lemma_increasing_same_members(first, second);
}

/// An array of ranks gives one list of boundaries only.
pub proof fn lemma_isa_ends_unique(isa: Seq<i32>, first: Seq<usize>, second: Seq<usize>)
    requires
        isa.len() <= usize::MAX,
        is_isa_ends(isa, first),
        is_isa_ends(isa, second),
    ensures
        first == second,
{
    assert forall|v: usize| first.contains(v) <==> second.contains(v) by {
        if first.contains(v) {
            let x = choose|x: int| 0 <= x < first.len() && first[x] == v;
            if x < first.len() - 1 {
                assert(first[x] < first[first.len() - 1]);
                assert(is_prefix_min(isa, first[x] + 1));
                assert(second.contains(((v + 1) - 1) as usize));
            } else {
                assert(second[second.len() - 1] == v);
            }
        }
        if second.contains(v) {
            let x = choose|x: int| 0 <= x < second.len() && second[x] == v;
            if x < second.len() - 1 {
                assert(second[x] < second[second.len() - 1]);
                assert(is_prefix_min(isa, second[x] + 1));
                assert(first.contains(((v + 1) - 1) as usize));
            } else {
                assert(first[first.len() - 1] == v);
            }
        }
    }
    lemma_increasing_same_members(first, second);
}

} // verus!
