//! Sorting text positions by comparing the strings that start there byte by
//! byte: the rotations of a text, and its suffixes.

use crate::rotation::{
    lemma_doubled_byte, lemma_rotation_le_lt, lemma_rotation_lt_le, lemma_rotation_reflexive,
    lemma_rotation_same, lemma_rotation_total, lemma_rotation_unordered, rotation_eq, rotation_lt,
};
use crate::sorted::{is_listing, is_strict_weak_order, lemma_sorted_listings_agree};
use crate::text::{
    agree, lemma_lcp_len_at_least, lemma_lcp_len_is, lemma_lcp_len_symmetric, lemma_suffix_lt_total,
    lemma_suffix_lt_transitive, same_at, suffix_lt,
};
use std::cmp::Ordering;
use vstd::prelude::*;

verus! {

/// The rotation that starts at `a` is smaller than the one that starts at
/// `b`.
pub open spec fn rotation_before(t: Seq<u8>, a: usize, b: usize) -> bool {
    rotation_lt(t, a as int, b as int)
}

/// The rotations that start at `a` and `b` agree in their first `i` bytes.
pub open spec fn rotations_agree(t: Seq<u8>, a: usize, b: usize, i: usize) -> bool {
    agree(t + t, a as int, b as int, i as int)
}

/// The suffix that starts at `a` is smaller than the one that starts at `b`.
pub open spec fn suffix_before(t: Seq<u8>, a: usize, b: usize) -> bool {
    suffix_lt(t, a as int, b as int)
}

/// The suffixes that start at `a` and `b` agree in their first `i` bytes.
pub open spec fn suffixes_agree(t: Seq<u8>, a: usize, b: usize, i: usize) -> bool {
    agree(t, a as int, b as int, i as int)
}

/// `order` holds every index below `n` once.
pub open spec fn is_index_permutation(order: Seq<usize>, n: nat) -> bool {
    &&& order.len() == n
    &&& forall|i: int| 0 <= i < n ==> #[trigger] order[i] < n
    &&& forall|i: int, j: int| 0 <= i < n && 0 <= j < n && #[trigger] order[i] == #[trigger] order[j] ==> i == j
    &&& forall|p: usize| p < n ==> #[trigger] order.contains(p)
}

/// `order[i]` comes before `order[j]`: its rotation is smaller, or the two
/// rotations are equal and it is the smaller index.
pub open spec fn rotation_ranked(t: Seq<u8>, order: Seq<usize>, i: int, j: int) -> bool {
    rotation_lt(t, order[i] as int, order[j] as int) || (rotation_eq(
        t,
        order[i] as int,
        order[j] as int,
    ) && order[i] < order[j])
}

/// `order` lists the start positions of all rotations of `t` by increasing
/// rotation, equal rotations by increasing start.
pub open spec fn is_rotation_order(t: Seq<u8>, order: Seq<usize>) -> bool {
    &&& is_index_permutation(order, t.len())
    &&& forall|i: int, j: int| 0 <= i < j < order.len() ==> #[trigger] rotation_ranked(t, order, i, j)
}

/// `order` lists the start positions of all suffixes of `t` by increasing
/// suffix.
pub open spec fn is_suffix_order(t: Seq<u8>, order: Seq<usize>) -> bool {
    &&& is_index_permutation(order, t.len())
    &&& forall|i: int, j: int|
        0 <= i < j < order.len() ==> suffix_lt(t, #[trigger] order[i] as int, #[trigger] order[j] as int)
}

/// `order` holds 0, 1, .., `n - 1`.
pub open spec fn is_identity_order(order: Seq<usize>, n: usize) -> bool {
    order.len() == n && forall|i: int| 0 <= i < n ==> #[trigger] order[i] == i
}

proof fn lemma_rotations_agree_more(t: Seq<u8>, a: usize, b: usize, i: usize)
    requires
        a < t.len(),
        b < t.len(),
        i < t.len(),
        rotations_agree(t, a, b, i),
        t[(a + i) % (t.len() as int)] == t[(b + i) % (t.len() as int)],
    ensures
        rotations_agree(t, a, b, (i + 1) as usize),
{
    lemma_doubled_byte(t, a + i);
    lemma_doubled_byte(t, b + i);
    assert forall|x: int| 0 <= x < i + 1 implies #[trigger] same_at(t + t, a as int, b as int, x) by {
        if x < i {
            assert(same_at(t + t, a as int, b as int, x));
        }
    }
}

proof fn lemma_rotations_differ(t: Seq<u8>, a: usize, b: usize, i: usize)
    requires
        a < t.len(),
        b < t.len(),
        i < t.len(),
        rotations_agree(t, a, b, i),
        t[(a + i) % (t.len() as int)] != t[(b + i) % (t.len() as int)],
    ensures
        rotation_before(t, a, b) == (t[(a + i) % (t.len() as int)] < t[(b + i) % (t.len() as int)]),
        rotation_before(t, b, a) == (t[(a + i) % (t.len() as int)] > t[(b + i) % (t.len() as int)]),
{
    lemma_doubled_byte(t, a + i);
    lemma_doubled_byte(t, b + i);
    lemma_lcp_len_is(t + t, a as int, b as int, i as int);
    lemma_lcp_len_symmetric(t + t, a as int, b as int);
}

proof fn lemma_rotations_same(t: Seq<u8>, a: usize, b: usize, n: usize)
    requires
        a < t.len(),
        b < t.len(),
        n == t.len(),
        rotations_agree(t, a, b, n),
    ensures
        !rotation_before(t, a, b),
        !rotation_before(t, b, a),
{
    lemma_lcp_len_at_least(t + t, a as int, b as int, t.len() as int);
    lemma_lcp_len_symmetric(t + t, a as int, b as int);
}

/// Compares the rotations of `text` that start at `a` and at `b`, byte by
/// byte.
pub fn compare_rotations(text: &[u8], a: usize, b: usize) -> (order: Ordering)
    requires
        a < text.len(),
        b < text.len(),
        text.len() <= usize::MAX / 2,
    ensures
        (order == Ordering::Less) == rotation_before(text@, a, b),
        (order == Ordering::Greater) == rotation_before(text@, b, a),
{
    let n = text.len();
    let mut i: usize = 0;
    while i < n
        invariant
            n == text.len(),
            n <= usize::MAX / 2,
            a < n,
            b < n,
            i <= n,
            rotations_agree(text@, a, b, i),
        decreases n - i,
    {
        let byte_a = text[(a + i) % n];
        let byte_b = text[(b + i) % n];
        if byte_a != byte_b {
            proof {
                lemma_rotations_differ(text@, a, b, i);
            }
            if byte_a < byte_b {
                return Ordering::Less;
            } else {
                return Ordering::Greater;
            }
        }
        proof {
            lemma_rotations_agree_more(text@, a, b, i);
        }
        i += 1;
    }
    proof {
        lemma_rotations_same(text@, a, b, n);
    }
    Ordering::Equal
}

proof fn lemma_suffixes_agree_more(t: Seq<u8>, a: usize, b: usize, i: usize)
    requires
        a + i < t.len(),
        b + i < t.len(),
        suffixes_agree(t, a, b, i),
        t[a + i] == t[b + i],
    ensures
        suffixes_agree(t, a, b, (i + 1) as usize),
{
    assert forall|x: int| 0 <= x < i + 1 implies #[trigger] same_at(t, a as int, b as int, x) by {
        if x < i {
            assert(same_at(t, a as int, b as int, x));
        }
    }
}

proof fn lemma_suffixes_decided(t: Seq<u8>, a: usize, b: usize, i: usize)
    requires
        a + i <= t.len(),
        b + i <= t.len(),
        suffixes_agree(t, a, b, i),
        a + i == t.len() || b + i == t.len() || t[a + i] != t[b + i],
    ensures
        suffix_before(t, a, b) == (a != b && (a + i == t.len() || (b + i < t.len() && t[a + i]
            < t[b + i]))),
        suffix_before(t, b, a) == (a != b && (b + i == t.len() || (a + i < t.len() && t[b + i]
            < t[a + i]))),
{
    lemma_lcp_len_is(t, a as int, b as int, i as int);
    lemma_lcp_len_symmetric(t, a as int, b as int);
}

/// Compares the suffixes of `text` that start at `a` and at `b`, byte by
/// byte; a suffix that is a prefix of the other is the smaller one.
pub fn compare_suffixes(text: &[u8], a: usize, b: usize) -> (order: Ordering)
    requires
        a <= text.len(),
        b <= text.len(),
    ensures
        (order == Ordering::Less) == suffix_before(text@, a, b),
        (order == Ordering::Greater) == suffix_before(text@, b, a),
{
    let n = text.len();
    let mut i: usize = 0;
    while i < n - a && i < n - b
        invariant
            n == text.len(),
            a <= n,
            b <= n,
            a + i <= n,
            b + i <= n,
            suffixes_agree(text@, a, b, i),
        decreases n - i,
    {
        let byte_a = text[a + i];
        let byte_b = text[b + i];
        if byte_a != byte_b {
            proof {
                lemma_suffixes_decided(text@, a, b, i);
            }
            if byte_a < byte_b {
                return Ordering::Less;
            } else {
                return Ordering::Greater;
            }
        }
        proof {
            lemma_suffixes_agree_more(text@, a, b, i);
        }
        i += 1;
    }
    proof {
        lemma_suffixes_decided(text@, a, b, i);
    }
    if a == b {
        Ordering::Equal
    } else if i == n - a {
        Ordering::Less
    } else {
        Ordering::Greater
    }
}

/// `sort_by` of std on a vector of rotation starts, with `compare_rotations`
/// as the order: the sort keeps every element, puts smaller before larger,
/// and leaves elements that compare equal in the order they came in, which
/// for the indices in increasing order is by increasing index.
#[verifier::external_body]
fn sort_by_rotation(indices: &mut Vec<usize>, text: &[u8])
    requires
        is_identity_order(old(indices)@, text.len()),
        text.len() <= usize::MAX / 2,
    ensures
        is_rotation_order(text@, final(indices)@),
{
    indices.sort_by(|a, b| compare_rotations(text, *a, *b));
}

/// `sort_by` of std on a vector of suffix starts, with `compare_suffixes` as
/// the order: the sort keeps every element and puts smaller before larger.
#[verifier::external_body]
fn sort_by_suffix(indices: &mut Vec<usize>, text: &[u8])
    requires
        is_identity_order(old(indices)@, text.len()),
    ensures
        is_suffix_order(text@, final(indices)@),
{
    indices.sort_by(|a, b| compare_suffixes(text, *a, *b));
}

/// The indices 0, 1, .., `n - 1`.
fn identity_order(n: usize) -> (indices: Vec<usize>)
    ensures
        is_identity_order(indices@, n),
{
    let mut indices: Vec<usize> = Vec::new();
    let mut i: usize = 0;
    while i < n
        invariant
            i <= n,
            indices.len() == i,
            forall|k: int| 0 <= k < i ==> #[trigger] indices[k] == k,
        decreases n - i,
    {
        indices.push(i);
        i += 1;
    }
    indices
}

/// The start positions of all rotations of `text`, sorted by rotation.
pub fn sorted_rotations(text: &[u8]) -> (order: Vec<usize>)
    requires
        text.len() <= usize::MAX / 2,
    ensures
        is_rotation_order(text@, order@),
{
    let mut indices = identity_order(text.len());
    sort_by_rotation(&mut indices, text);
    indices
}

/// The suffix array of `text`, found by sorting all start positions with
/// byte-by-byte comparisons of the suffixes.
pub fn suffixarray_naive(text: &[u8]) -> (sa: Vec<usize>)
    ensures
        is_suffix_order(text@, sa@),
{
    let mut sa = identity_order(text.len());
    sort_by_suffix(&mut sa, text);
    sa
}

/// The rotation that starts at `a` comes before the one that starts at `b`
/// when they are sorted: it is the smaller one, or the same one with the
/// smaller start.
pub open spec fn rotation_rank_order(t: Seq<u8>) -> spec_fn(int, int) -> bool {
    |a: int, b: int| rotation_lt(t, a, b) || (rotation_eq(t, a, b) && a < b)
}

/// The entries of a list of indices, as numbers.
pub open spec fn as_listing(order: Seq<usize>) -> Seq<int> {
    Seq::new(order.len(), |i: int| order[i] as int)
}

proof fn lemma_as_listing(order: Seq<usize>)
    requires
        is_index_permutation(order, order.len()),
        order.len() <= usize::MAX,
    ensures
        is_listing(as_listing(order)),
{
    let s = as_listing(order);
    assert forall|p: int| 0 <= p < s.len() implies #[trigger] s.contains(p) by {
        assert(order.contains(p as usize));
        let i = choose|i: int| 0 <= i < order.len() && order[i] == p as usize;
        assert(s[i] == p);
    }
}

proof fn lemma_rotation_rank_order(t: Seq<u8>)
    ensures
        is_strict_weak_order(rotation_rank_order(t), t.len() as int),
{
    let lt = rotation_rank_order(t);
    let n = t.len() as int;
    assert forall|x: int| 0 <= x < n implies !#[trigger] lt(x, x) by {
        lemma_rotation_reflexive(t, x);
    }
    assert forall|x: int, y: int, z: int|
        0 <= x < n && 0 <= y < n && 0 <= z < n && #[trigger] lt(x, y) && !#[trigger] lt(
            z,
            y,
        ) implies lt(x, z) by {
        lemma_rotation_total(t, x, y);
        lemma_rotation_total(t, y, x);
        lemma_rotation_rank_chain(t, x, y, z);
    }
    assert forall|x: int, y: int, z: int|
        0 <= x < n && 0 <= y < n && 0 <= z < n && !#[trigger] lt(y, x) && #[trigger] lt(
            y,
            z,
        ) implies lt(x, z) by {
        lemma_rotation_total(t, y, z);
        lemma_rotation_total(t, z, y);
        lemma_rotation_rank_chain(t, x, y, z);
    }
}

/// Of three rotations of which the first is not behind the second and the
/// second not behind the third, with one of the two before the other, the
/// first is before the third.
proof fn lemma_rotation_rank_chain(t: Seq<u8>, x: int, y: int, z: int)
    requires
        0 <= x < t.len(),
        0 <= y < t.len(),
        0 <= z < t.len(),
        !rotation_rank_order(t)(y, x),
        !rotation_rank_order(t)(z, y),
        rotation_rank_order(t)(x, y) || rotation_rank_order(t)(y, z),
    ensures
        rotation_rank_order(t)(x, z),
{
    let tt = t + t;
    lemma_rotation_total(t, x, y);
    lemma_rotation_total(t, y, z);
    lemma_rotation_total(t, x, z);
    lemma_rotation_reflexive(t, y);
    if rotation_lt(t, x, y) {
        lemma_rotation_lt_le(t, x, y, z);
    } else if rotation_lt(t, y, z) {
        lemma_rotation_le_lt(t, x, y, z);
    } else {
        lemma_rotation_unordered(t, x, y);
        lemma_rotation_unordered(t, y, z);
        assert forall|i: int| 0 <= i < t.len() implies #[trigger] same_at(tt, x, z, i) by {
            assert(same_at(tt, x, y, i));
            assert(same_at(tt, y, z, i));
        }
        lemma_rotation_same(t, x, z);
        lemma_lcp_len_at_least(tt, x, z, t.len() as int);
    }
}

/// The rotations of a text can be sorted in one way only.
pub proof fn lemma_rotation_order_unique(t: Seq<u8>, first: Seq<usize>, second: Seq<usize>)
    requires
        t.len() <= usize::MAX,
        is_rotation_order(t, first),
        is_rotation_order(t, second),
    ensures
        first == second,
{
    let lt = rotation_rank_order(t);
    let a = as_listing(first);
    let b = as_listing(second);
    lemma_as_listing(first);
    lemma_as_listing(second);
    lemma_rotation_rank_order(t);
    assert forall|i: int, j: int| 0 <= i < j < a.len() implies !#[trigger] lt(a[j], a[i]) by {
        assert(rotation_ranked(t, first, i, j));
        lemma_rotation_total(t, a[i], a[j]);
    }
    assert forall|i: int, j: int| 0 <= i < j < b.len() implies !#[trigger] lt(b[j], b[i]) by {
        assert(rotation_ranked(t, second, i, j));
        lemma_rotation_total(t, b[i], b[j]);
    }
    assert forall|i: int| 0 <= i < first.len() implies first[i] == second[i] by {
        lemma_sorted_listings_agree(a, b, lt, i);
        lemma_rotation_total(t, a[i], b[i]);
    }
    assert(first =~= second);
}

/// The order of the suffixes of `t`, as a relation on their starts.
pub open spec fn suffix_order(t: Seq<u8>) -> spec_fn(int, int) -> bool {
    |a: int, b: int| suffix_lt(t, a, b)
}

/// The suffixes of a text can be sorted in one way only.
pub proof fn lemma_suffix_order_unique(t: Seq<u8>, first: Seq<usize>, second: Seq<usize>)
    requires
        t.len() <= usize::MAX,
        is_suffix_order(t, first),
        is_suffix_order(t, second),
    ensures
        first == second,
{
    let lt = suffix_order(t);
    let n = t.len() as int;
    let a = as_listing(first);
    let b = as_listing(second);
    lemma_as_listing(first);
    lemma_as_listing(second);
    assert forall|x: int| 0 <= x < n implies !#[trigger] lt(x, x) by {
        lemma_suffix_lt_total(t, x, x);
    }
    assert forall|x: int, y: int, z: int|
        0 <= x < n && 0 <= y < n && 0 <= z < n && #[trigger] lt(x, y) && !#[trigger] lt(
            z,
            y,
        ) implies lt(x, z) by {
        lemma_suffix_lt_total(t, y, z);
        if y != z {
            lemma_suffix_lt_transitive(t, x, y, z);
        }
    }
    assert forall|x: int, y: int, z: int|
        0 <= x < n && 0 <= y < n && 0 <= z < n && !#[trigger] lt(y, x) && #[trigger] lt(
            y,
            z,
        ) implies lt(x, z) by {
        lemma_suffix_lt_total(t, x, y);
        if x != y {
            lemma_suffix_lt_transitive(t, x, y, z);
        }
    }
    assert forall|i: int, j: int| 0 <= i < j < a.len() implies !#[trigger] lt(a[j], a[i]) by {
        assert(suffix_lt(t, first[i] as int, first[j] as int));
        lemma_suffix_lt_total(t, a[i], a[j]);
    }
    assert forall|i: int, j: int| 0 <= i < j < b.len() implies !#[trigger] lt(b[j], b[i]) by {
        assert(suffix_lt(t, second[i] as int, second[j] as int));
        lemma_suffix_lt_total(t, b[i], b[j]);
    }
    assert forall|i: int| 0 <= i < first.len() implies first[i] == second[i] by {
        lemma_sorted_listings_agree(a, b, lt, i);
        lemma_suffix_lt_total(t, a[i], b[i]);
    }
    assert(first =~= second);
}

} // verus!
