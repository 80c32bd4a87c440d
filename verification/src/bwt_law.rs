//! The transform by way of the least rotation and its suffix array is the
//! transform by the matrix of sorted rotations.

use crate::bwt::{bwt_by_positions, bwt_by_ranks, byte_before, conjugate_text, is_conjugate_bwt};
use crate::naive_sort::{is_rotation_order, rotation_ranked};
use crate::rank_arrays::{lemma_rank_of, rank_of};
use crate::rotation::{
    is_least_rotation, lemma_doubled_byte, lemma_least_rotation_unique, lemma_rebased_byte,
    lemma_rotation_decided, lemma_rotation_order, lemma_rotation_ordered, lemma_rotation_rebased,
    lemma_rotation_total, lemma_rotation_unordered, rebased, rotated, rotation_le, rotation_lt,
    rotation_order,
};
use crate::sorted::{is_listing, is_sorted_by, lemma_sorted_listings_agree};
use crate::suffix_sort::lemma_suffix_array_unique;
use crate::text::{
    is_sentinel_terminated, is_suffix_array, lcp_len, lemma_lcp_below_end, lemma_lcp_len_props,
    lemma_lcp_len_symmetric, lemma_suffix_lt_first_byte, lemma_suffix_lt_total, ranked_before,
    same_at, suffix_lt,
};
use vstd::prelude::*;

verus! {

/// The text holds no 0 byte.
pub open spec fn has_no_zero(t: Seq<u8>) -> bool {
    forall|i: int| 0 <= i < t.len() ==> #[trigger] t[i] != 0
}

/// No rotation of `u` is smaller than `u`.
pub open spec fn starts_least(u: Seq<u8>) -> bool {
    forall|p: int| 0 <= p < u.len() ==> !#[trigger] rotation_lt(u, p, 0)
}

/// The text rotated to its least rotation starts with a least rotation.
proof fn lemma_rotated_starts_least(t: Seq<u8>, c: int)
    requires
        is_least_rotation(t, c),
    ensures
        starts_least(rotated(t, c)),
{
    let n = t.len() as int;
    assert forall|p: int| 0 <= p < n implies !#[trigger] rotation_lt(rotated(t, c), p, 0) by {
        let r = if p + c < n { p + c } else { p + c - n };
        assert(rotation_le(t, c, r));
        lemma_rotation_rebased(t, c, r, c);
    }
}

/// With a 0 byte behind a text that starts with its least rotation, a
/// suffix that is smaller than another does not start a larger rotation.
proof fn lemma_suffix_then_rotation(u: Seq<u8>, p: int, q: int)
    requires
        has_no_zero(u),
        starts_least(u),
        0 <= p < u.len(),
        0 <= q < u.len(),
        suffix_lt(u + seq![0u8], p, q),
    ensures
        !rotation_lt(u, q, p),
{
    let n = u.len() as int;
    let v = u + seq![0u8];
    let uu = u + u;
    assert(is_sentinel_terminated(v)) by {
        assert forall|i: int| 0 <= i < v.len() - 1 implies v[v.len() - 1] < #[trigger] v[i] by {
            assert(u[i] != 0);
        }
    }
    lemma_lcp_below_end(v, p, q);
    lemma_lcp_len_props(v, p, q);
    let l = lcp_len(v, p, q) as int;
    assert(v[p + l] < v[q + l]);
    assert(q + l < n);
    assert forall|x: int| 0 <= x < l implies #[trigger] same_at(uu, q, p, x) by {
        assert(same_at(v, p, q, x));
    }
    if p + l < n {
        lemma_rotation_decided(u, q, p, l);
    } else {
        if rotation_lt(u, q, p) {
            let m = lemma_rotation_ordered(u, q, p);
            assert(m >= l) by {
                if m < l {
                    assert(same_at(uu, q, p, m));
                }
            }
            let s = q + l;
            let x = m - l;
            assert forall|y: int| 0 <= y < x implies #[trigger] same_at(uu, s, 0, y) by {
                assert(same_at(uu, q, p, l + y));
            }
            assert(uu[s + x] == uu[q + m]);
            assert(uu[x] == uu[p + m]);
            lemma_rotation_decided(u, s, 0, x);
            assert(!rotation_lt(u, s, 0));
        }
    }
}

/// The 0 byte at the end starts the smallest suffix.
proof fn lemma_sentinel_first(u: Seq<u8>, sa: Seq<i32>)
    requires
        has_no_zero(u),
        is_suffix_array(u + seq![0u8], sa),
    ensures
        sa[0] == u.len(),
{
    let n = u.len() as int;
    let v = u + seq![0u8];
    lemma_rank_of(sa, n);
    let r = rank_of(sa, n);
    if r > 0 {
        assert(ranked_before(v, sa, 0, r));
        let p = sa[0] as int;
        assert(u[p] != 0);
        lemma_suffix_lt_first_byte(v, n, p);
        lemma_suffix_lt_total(v, n, p);
    }
}

/// The rank at place `i` of a suffix array from which the rank `z` is taken
/// out.
pub open spec fn kept_rank(i: int, z: int) -> int {
    if i < z {
        i
    } else {
        i + 1
    }
}

/// The starts of the rotations in the order of the suffixes that stand for
/// them: the suffix made of the 0 byte alone stands for the rotation that
/// starts at 0, and the suffix that starts at 0 stands for none.
pub open spec fn suffix_listing(sa: Seq<i32>, z: int) -> Seq<int> {
    Seq::new(
        (sa.len() - 1) as nat,
        |i: int|
            if sa[kept_rank(i, z)] == sa.len() - 1 {
                0
            } else {
                sa[kept_rank(i, z)] as int
            },
    )
}

/// The starts of the sorted rotations of a text, as starts of rotations of
/// the text rotated by `c`.
pub open spec fn rotation_listing(order: Seq<usize>, c: int) -> Seq<int> {
    Seq::new(order.len(), |i: int| rebased(order[i] as int, c, order.len() as int))
}

proof fn lemma_suffix_listing(u: Seq<u8>, sa: Seq<i32>, z: int)
    requires
        u.len() >= 1,
        has_no_zero(u),
        starts_least(u),
        is_suffix_array(u + seq![0u8], sa),
        0 <= z < sa.len(),
        sa[z] == 0,
    ensures
        is_listing(suffix_listing(sa, z)),
        is_sorted_by(suffix_listing(sa, z), rotation_order(u)),
{
    let n = u.len() as int;
    let v = u + seq![0u8];
    let s = suffix_listing(sa, z);
    lemma_sentinel_first(u, sa);
    assert forall|i: int, j: int| 0 <= i < j < s.len() implies #[trigger] s[i] != #[trigger] s[j] by {
        assert(sa[kept_rank(i, z)] != sa[kept_rank(j, z)]);
        assert(sa[kept_rank(i, z)] != sa[z]);
        assert(sa[kept_rank(j, z)] != sa[z]);
    }
    assert forall|p: int| 0 <= p < s.len() implies #[trigger] s.contains(p) by {
        if p == 0 {
            assert(s[0] == 0);
        } else {
            lemma_rank_of(sa, p);
            let r = rank_of(sa, p);
            let i = if r < z { r } else { r - 1 };
            assert(kept_rank(i, z) == r);
            assert(s[i] == p);
        }
    }
    assert forall|i: int| 0 <= i < s.len() implies 0 <= #[trigger] s[i] < s.len() by {
        assert(sa[kept_rank(i, z)] != sa[z]);
    }
    assert forall|i: int, j: int| 0 <= i < j < s.len() implies !#[trigger] rotation_order(u)(
        s[j],
        s[i],
    ) by {
        let ri = kept_rank(i, z);
        let rj = kept_rank(j, z);
        assert(sa[rj] != sa[0]);
        assert(sa[ri] != sa[z]);
        assert(sa[rj] != sa[z]);
        if i == 0 {
            assert(!rotation_lt(u, s[j], 0));
        } else {
            assert(sa[ri] != sa[0]);
            assert(ranked_before(v, sa, ri, rj));
            lemma_suffix_then_rotation(u, sa[ri] as int, sa[rj] as int);
        }
    }
}

proof fn lemma_rotation_listing(t: Seq<u8>, c: int, order: Seq<usize>)
    requires
        0 <= c < t.len(),
        t.len() <= usize::MAX,
        is_rotation_order(t, order),
    ensures
        is_listing(rotation_listing(order, c)),
        is_sorted_by(rotation_listing(order, c), rotation_order(rotated(t, c))),
{
    let n = t.len() as int;
    let s = rotation_listing(order, c);
    assert forall|i: int, j: int| 0 <= i < j < s.len() implies #[trigger] s[i] != #[trigger] s[j] by {
        assert(order[i] != order[j]);
    }
    assert forall|p: int| 0 <= p < s.len() implies #[trigger] s.contains(p) by {
        let r = if p + c < n { p + c } else { p + c - n };
        assert(order.contains(r as usize));
        let i = choose|i: int| 0 <= i < order.len() && order[i] == r as usize;
        assert(s[i] == p);
    }
    assert forall|i: int, j: int| 0 <= i < j < s.len() implies !#[trigger] rotation_order(
        rotated(t, c),
    )(s[j], s[i]) by {
        assert(rotation_ranked(t, order, i, j));
        lemma_rotation_total(t, order[i] as int, order[j] as int);
        lemma_lcp_len_symmetric(t + t, order[i] as int, order[j] as int);
        lemma_rotation_rebased(t, c, order[j] as int, order[i] as int);
    }
}

/// For a text without a 0 byte, the transform taken by way of the least
/// rotation and its suffix array is the last column of the matrix of sorted
/// rotations.
pub proof fn lemma_conjugate_bwt_is_matrix_bwt(t: Seq<u8>, clever: Seq<u8>, order: Seq<usize>)
    requires
        1 <= t.len() <= usize::MAX,
        has_no_zero(t),
        is_conjugate_bwt(t, clever),
        is_rotation_order(t, order),
    ensures
        clever == bwt_by_positions(t, order),
{
    let n = t.len() as int;
    let (c, sa, z) = choose|c: int, sa: Seq<i32>, z: int|
        #![trigger is_suffix_array(conjugate_text(t, c), sa), sa[z]]
        {
            &&& is_least_rotation(t, c)
            &&& is_suffix_array(conjugate_text(t, c), sa)
            &&& 0 <= z < sa.len()
            &&& sa[z] == 0
            &&& clever == bwt_by_ranks(conjugate_text(t, c), sa).remove(z)
        };
    let u = rotated(t, c);
    let v = conjugate_text(t, c);
    assert(v =~= u + seq![0u8]);
    assert(has_no_zero(u)) by {
        assert forall|i: int| 0 <= i < u.len() implies #[trigger] u[i] != 0 by {
            if i < n - c {
                assert(t[c + i] != 0);
            } else {
                assert(t[i - (n - c)] != 0);
            }
        }
    }
    lemma_rotated_starts_least(t, c);
    lemma_suffix_listing(u, sa, z);
    lemma_rotation_listing(t, c, order);
    lemma_rotation_order(u);
    lemma_sentinel_first(u, sa);
    let by_suffix = suffix_listing(sa, z);
    let by_rotation = rotation_listing(order, c);
    let naive = bwt_by_positions(t, order);
    assert forall|i: int| 0 <= i < n implies clever[i] == naive[i] by {
        lemma_sorted_listings_agree(by_rotation, by_suffix, rotation_order(u), i);
        lemma_rotation_unordered(u, by_rotation[i], by_suffix[i]);
        assert(same_at(u + u, by_rotation[i], by_suffix[i], n - 1));
        // the byte of the matrix
        let o = order[i] as int;
        lemma_doubled_byte(t, o + n - 1);
        lemma_rebased_byte(t, c, o, n - 1);
        assert(naive[i] == byte_before(t, o));
        assert(naive[i] == (u + u)[by_rotation[i] + n - 1]);
        // the byte of the suffix array
        let r = kept_rank(i, z);
        let b = sa[r] as int;
        assert(sa[r] != sa[z]);
        assert(clever[i] == byte_before(v, b));
        assert((n + 1 + b - 1) % (n + 1) == b - 1) by (nonlinear_arith)
            requires
                1 <= b <= n,
        ;
        assert(clever[i] == v[b - 1]);
        assert(clever[i] == (u + u)[by_suffix[i] + n - 1]);
    }
    assert(clever =~= naive);
}

/// A text has one transform by way of its least rotation only.
pub proof fn lemma_conjugate_bwt_unique(t: Seq<u8>, first: Seq<u8>, second: Seq<u8>)
    requires
        is_conjugate_bwt(t, first),
        is_conjugate_bwt(t, second),
    ensures
        first == second,
{
    let (c1, sa1, z1) = choose|c: int, sa: Seq<i32>, z: int|
        #![trigger is_suffix_array(conjugate_text(t, c), sa), sa[z]]
        {
            &&& is_least_rotation(t, c)
            &&& is_suffix_array(conjugate_text(t, c), sa)
            &&& 0 <= z < sa.len()
            &&& sa[z] == 0
            &&& first == bwt_by_ranks(conjugate_text(t, c), sa).remove(z)
        };
    let (c2, sa2, z2) = choose|c: int, sa: Seq<i32>, z: int|
        #![trigger is_suffix_array(conjugate_text(t, c), sa), sa[z]]
        {
            &&& is_least_rotation(t, c)
            &&& is_suffix_array(conjugate_text(t, c), sa)
            &&& 0 <= z < sa.len()
            &&& sa[z] == 0
            &&& second == bwt_by_ranks(conjugate_text(t, c), sa).remove(z)
        };
    lemma_least_rotation_unique(t, c1, c2);
    lemma_suffix_array_unique(conjugate_text(t, c1), sa1, sa2);
    assert(sa1[z1] == sa1[z2]);
}

} // verus!
