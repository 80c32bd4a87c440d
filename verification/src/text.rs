//! The mathematical vocabulary shared by every module: longest common
//! prefixes of suffixes, the lexicographic order of suffixes, permutations
//! and suffix arrays.

use vstd::prelude::*;

verus! {

/// Length of the longest common prefix of the suffixes of `t` that start at
/// positions `a` and `b`.
pub open spec fn lcp_len(t: Seq<u8>, a: int, b: int) -> nat
    decreases t.len() - a,
{
    if 0 <= a < t.len() && 0 <= b < t.len() && t[a] == t[b] {
        1 + lcp_len(t, a + 1, b + 1)
    } else {
        0
    }
}

/// The suffix starting at `a` is lexicographically smaller than the suffix
/// starting at `b`. A suffix that is a proper prefix of another is the smaller
/// one.
pub open spec fn suffix_lt(t: Seq<u8>, a: int, b: int) -> bool {
    let l = lcp_len(t, a, b) as int;
    a != b && (a + l >= t.len() || (b + l < t.len() && t[a + l] < t[b + l]))
}

/// The last byte of `t` is strictly smaller than every other byte of `t`.
pub open spec fn is_sentinel_terminated(t: Seq<u8>) -> bool {
    t.len() > 0 && forall|i: int| 0 <= i < t.len() - 1 ==> t[t.len() - 1] < #[trigger] t[i]
}

/// The value `p` stands somewhere in `s`.
pub open spec fn has_value(s: Seq<i32>, p: int) -> bool {
    exists|i: int| 0 <= i < s.len() && #[trigger] s[i] == p
}

/// `s` is a bijection of `[0, s.len())` onto itself.
pub open spec fn is_permutation(s: Seq<i32>) -> bool {
    &&& forall|i: int| 0 <= i < s.len() ==> 0 <= #[trigger] s[i] < s.len()
    &&& forall|i: int, j: int|
        0 <= i < s.len() && 0 <= j < s.len() && #[trigger] s[i] == #[trigger] s[j] ==> i == j
    &&& forall|p: int| 0 <= p < s.len() ==> #[trigger] has_value(s, p)
}

/// `inv` undoes `s`, and `s` undoes `inv`.
pub open spec fn is_inverse_of(inv: Seq<i32>, s: Seq<i32>) -> bool {
    &&& inv.len() == s.len()
    &&& forall|i: int| 0 <= i < s.len() ==> 0 <= #[trigger] s[i] < s.len() && inv[s[i] as int] == i
    &&& forall|p: int|
        0 <= p < s.len() ==> 0 <= #[trigger] inv[p] < s.len() && s[inv[p] as int] == p
}

/// The suffix listed at index `i` of `sa` is smaller than the one listed at
/// index `j`.
pub open spec fn ranked_before(t: Seq<u8>, sa: Seq<i32>, i: int, j: int) -> bool {
    suffix_lt(t, sa[i] as int, sa[j] as int)
}

/// `sa` lists the start positions of all suffixes of `t` in increasing
/// lexicographic order.
pub open spec fn is_suffix_array(t: Seq<u8>, sa: Seq<i32>) -> bool {
    &&& sa.len() == t.len()
    &&& is_permutation(sa)
    &&& forall|i: int, j: int| 0 <= i < j < sa.len() ==> #[trigger] ranked_before(t, sa, i, j)
}

/// The bytes at offset `x` from `a` and from `b` are the same.
pub open spec fn same_at(t: Seq<u8>, a: int, b: int, x: int) -> bool {
    t[a + x] == t[b + x]
}

/// The `m` bytes from `a` on equal the `m` bytes from `b` on.
pub open spec fn agree(t: Seq<u8>, a: int, b: int, m: int) -> bool {
    forall|x: int| 0 <= x < m ==> #[trigger] same_at(t, a, b, x)
}

/// The first `lcp_len` bytes of the two suffixes agree, both stay inside the
/// text, and the bytes that follow (if both exist) differ.
pub proof fn lemma_lcp_len_props(t: Seq<u8>, a: int, b: int)
    requires
        0 <= a <= t.len(),
        0 <= b <= t.len(),
    ensures
        a + lcp_len(t, a, b) <= t.len(),
        b + lcp_len(t, a, b) <= t.len(),
        agree(t, a, b, lcp_len(t, a, b) as int),
        a + lcp_len(t, a, b) < t.len() && b + lcp_len(t, a, b) < t.len() ==> t[a + lcp_len(
            t,
            a,
            b,
        )] != t[b + lcp_len(t, a, b)],
    decreases t.len() - a,
{
    if a < t.len() && b < t.len() && t[a] == t[b] {
        lemma_lcp_len_props(t, a + 1, b + 1);
        assert forall|x: int| 0 <= x < lcp_len(t, a, b) implies #[trigger] same_at(t, a, b, x) by {
            if x > 0 {
                assert(same_at(t, a + 1, b + 1, x - 1));
            }
        }
    }
}

/// A length `m` with the three defining properties is the `lcp_len`.
pub proof fn lemma_lcp_len_is(t: Seq<u8>, a: int, b: int, m: int)
    requires
        0 <= a,
        0 <= b,
        0 <= m,
        a + m <= t.len(),
        b + m <= t.len(),
        agree(t, a, b, m),
        a + m == t.len() || b + m == t.len() || t[a + m] != t[b + m],
    ensures
        lcp_len(t, a, b) == m,
    decreases m,
{
    if m > 0 {
        assert(same_at(t, a, b, 0));
        assert forall|x: int| 0 <= x < m - 1 implies #[trigger] same_at(t, a + 1, b + 1, x) by {
            assert(same_at(t, a, b, x + 1));
        }
        lemma_lcp_len_is(t, a + 1, b + 1, m - 1);
    }
}

/// Any agreeing run of bytes is at most the `lcp_len`.
pub proof fn lemma_lcp_len_at_least(t: Seq<u8>, a: int, b: int, m: int)
    requires
        0 <= a,
        0 <= b,
        0 <= m,
        a + m <= t.len(),
        b + m <= t.len(),
        agree(t, a, b, m),
    ensures
        lcp_len(t, a, b) >= m,
    decreases m,
{
    if m > 0 {
        assert(same_at(t, a, b, 0));
        assert forall|x: int| 0 <= x < m - 1 implies #[trigger] same_at(t, a + 1, b + 1, x) by {
            assert(same_at(t, a, b, x + 1));
        }
        lemma_lcp_len_at_least(t, a + 1, b + 1, m - 1);
    }
}

pub proof fn lemma_lcp_len_symmetric(t: Seq<u8>, a: int, b: int)
    requires
        0 <= a <= t.len(),
        0 <= b <= t.len(),
    ensures
        lcp_len(t, a, b) == lcp_len(t, b, a),
{
    lemma_lcp_len_props(t, a, b);
    assert forall|x: int| 0 <= x < lcp_len(t, a, b) implies #[trigger] same_at(t, b, a, x) by {
        assert(same_at(t, a, b, x));
    }
    lemma_lcp_len_is(t, b, a, lcp_len(t, a, b) as int);
}

/// Two different suffixes are ordered one way and not the other.
pub proof fn lemma_suffix_lt_total(t: Seq<u8>, a: int, b: int)
    requires
        0 <= a <= t.len(),
        0 <= b <= t.len(),
    ensures
        a != b ==> (suffix_lt(t, a, b) <==> !suffix_lt(t, b, a)),
        !suffix_lt(t, a, a),
{
    lemma_lcp_len_props(t, a, b);
    lemma_lcp_len_symmetric(t, a, b);
}

/// The order of suffixes is transitive, and the common prefix of the outer
/// two of three ordered suffixes is the shorter of the two inner ones.
pub proof fn lemma_suffix_lt_transitive(t: Seq<u8>, a: int, b: int, c: int)
    requires
        0 <= a <= t.len(),
        0 <= b <= t.len(),
        0 <= c <= t.len(),
        suffix_lt(t, a, b),
        suffix_lt(t, b, c),
    ensures
        suffix_lt(t, a, c),
        lcp_len(t, a, c) == if lcp_len(t, a, b) <= lcp_len(t, b, c) {
            lcp_len(t, a, b)
        } else {
            lcp_len(t, b, c)
        },
{
    let l1 = lcp_len(t, a, b) as int;
    let l2 = lcp_len(t, b, c) as int;
    let m = if l1 <= l2 { l1 } else { l2 };
    lemma_lcp_len_props(t, a, b);
    lemma_lcp_len_props(t, b, c);
    assert forall|x: int| 0 <= x < m implies #[trigger] same_at(t, a, c, x) by {
        assert(same_at(t, a, b, x));
        assert(same_at(t, b, c, x));
    }
    if l1 < l2 {
        assert(same_at(t, b, c, l1));
    } else if l2 < l1 {
        assert(same_at(t, a, b, l2));
    }
    lemma_lcp_len_is(t, a, c, m);
}

/// Comparing first bytes decides the order when they differ.
pub proof fn lemma_suffix_lt_first_byte(t: Seq<u8>, a: int, b: int)
    requires
        0 <= a < t.len(),
        0 <= b < t.len(),
        t[a] < t[b],
    ensures
        suffix_lt(t, a, b),
{
}

/// The word `u` is lexicographically smaller than the word `v`. A proper
/// prefix of a word is smaller than the word.
pub open spec fn word_lt(u: Seq<u8>, v: Seq<u8>) -> bool
    decreases u.len(),
{
    if v.len() == 0 {
        false
    } else if u.len() == 0 {
        true
    } else if u[0] != v[0] {
        u[0] < v[0]
    } else {
        word_lt(u.skip(1), v.skip(1))
    }
}

/// Two words that agree up to a position where `u` holds the smaller byte
/// are ordered: `u` is the smaller one.
pub proof fn lemma_word_lt_by_mismatch(u: Seq<u8>, v: Seq<u8>, l: int)
    requires
        0 <= l < u.len(),
        l < v.len(),
        forall|x: int| 0 <= x < l ==> u[x] == v[x],
        u[l] < v[l],
    ensures
        word_lt(u, v),
        !word_lt(v, u),
    decreases l,
{
    if l > 0 {
        assert(u[0] == v[0]);
        assert forall|x: int| 0 <= x < l - 1 implies u.skip(1)[x] == v.skip(1)[x] by {
            assert(u[x + 1] == v[x + 1]);
        }
        lemma_word_lt_by_mismatch(u.skip(1), v.skip(1), l - 1);
    }
}

/// A word is not smaller than any of its prefixes.
pub proof fn lemma_word_not_lt_prefix(u: Seq<u8>, v: Seq<u8>)
    requires
        v.len() <= u.len(),
        forall|x: int| 0 <= x < v.len() ==> u[x] == v[x],
    ensures
        !word_lt(u, v),
    decreases v.len(),
{
    if v.len() > 0 {
        assert(u[0] == v[0]);
        assert forall|x: int| 0 <= x < v.len() - 1 implies u.skip(1)[x] == v.skip(1)[x] by {
            assert(u[x + 1] == v[x + 1]);
        }
        lemma_word_not_lt_prefix(u.skip(1), v.skip(1));
    }
}

/// Two suffixes that agree in their first `m` bytes are ordered as what
/// follows those bytes is.
pub proof fn lemma_suffix_lt_shift(t: Seq<u8>, a: int, b: int, m: int)
    requires
        0 <= a,
        0 <= b,
        0 <= m,
        a + m <= t.len(),
        b + m <= t.len(),
        agree(t, a, b, m),
    ensures
        lcp_len(t, a, b) == m + lcp_len(t, a + m, b + m),
        suffix_lt(t, a, b) == suffix_lt(t, a + m, b + m),
{
    lemma_lcp_len_props(t, a + m, b + m);
    let l = lcp_len(t, a + m, b + m) as int;
    assert forall|x: int| 0 <= x < m + l implies #[trigger] same_at(t, a, b, x) by {
        if x >= m {
            assert(same_at(t, a + m, b + m, x - m));
        }
    }
    lemma_lcp_len_is(t, a, b, m + l);
}

/// With a sentinel at the end, two different suffixes differ before either
/// of them ends.
pub proof fn lemma_lcp_below_end(t: Seq<u8>, p: int, q: int)
    requires
        is_sentinel_terminated(t),
        0 <= p < t.len(),
        0 <= q < t.len(),
        p != q,
    ensures
        p + lcp_len(t, p, q) < t.len(),
        q + lcp_len(t, p, q) < t.len(),
{
    let n = t.len() as int;
    let l = lcp_len(t, p, q) as int;
    lemma_lcp_len_props(t, p, q);
    if p + l == n {
        assert(same_at(t, p, q, l - 1));
    }
    if q + l == n {
        assert(same_at(t, p, q, l - 1));
    }
}

} // verus!
