//! The arrays derived from a suffix array in linear time: its inverse, the
//! predecessor array Phi, and the longest-common-prefix arrays PLCP (by text
//! position) and LCP (by rank).

use crate::range_min::range_min;
use crate::text::{
    agree, has_value, is_inverse_of, is_permutation, is_sentinel_terminated, is_suffix_array,
    lcp_len, lemma_lcp_len_is, lemma_lcp_len_props, lemma_lcp_len_symmetric,
    lemma_suffix_lt_first_byte, lemma_suffix_lt_total, lemma_suffix_lt_transitive, ranked_before,
    same_at, suffix_lt,
};
use vstd::prelude::*;

verus! {

/// `phi` maps every text position to the position whose suffix comes just
/// before it in `sa`; the position of the smallest suffix is mapped to the
/// position of the largest.
pub open spec fn is_phi_of(phi: Seq<i32>, sa: Seq<i32>) -> bool {
    &&& phi.len() == sa.len()
    &&& forall|i: int| 0 <= i < sa.len() ==> #[trigger] phi_at(phi, sa, i)
}

/// The entry of `phi` for the suffix of rank `i` names the suffix of rank
/// `i - 1`, or the last one where `i` is 0.
pub open spec fn phi_at(phi: Seq<i32>, sa: Seq<i32>, i: int) -> bool {
    phi[sa[i] as int] == if i == 0 {
        sa[sa.len() - 1]
    } else {
        sa[i - 1]
    }
}

/// `phi` is the predecessor array of the suffix array of `t`.
pub open spec fn is_phi_array(t: Seq<u8>, phi: Seq<i32>) -> bool {
    exists|sa: Seq<i32>| #[trigger] is_suffix_array(t, sa) && is_phi_of(phi, sa)
}

/// `plcp[p]` is the longest common prefix of the suffix at `p` and the suffix
/// at `phi[p]`.
pub open spec fn is_plcp_of(plcp: Seq<u32>, t: Seq<u8>, phi: Seq<i32>) -> bool {
    &&& plcp.len() == t.len()
    &&& forall|p: int| 0 <= p < t.len() ==> #[trigger] plcp[p] == lcp_len(t, p, phi[p] as int)
}

/// `lcp[i]` is the longest common prefix of the suffixes of rank `i - 1` and
/// `i`; `lcp[0]` compares the smallest suffix with the largest.
pub open spec fn is_lcp_array(lcp: Seq<u32>, t: Seq<u8>, sa: Seq<i32>) -> bool {
    &&& lcp.len() == sa.len()
    &&& forall|i: int|
        1 <= i < sa.len() ==> #[trigger] lcp[i] == lcp_len(t, sa[i - 1] as int, sa[i] as int)
    &&& sa.len() > 0 ==> lcp[0] == lcp_len(t, sa[0] as int, sa[sa.len() - 1] as int)
}

/// A permutation held in `i32` entries has at most 2^31 of them.
pub proof fn lemma_permutation_len(s: Seq<i32>)
    requires
        is_permutation(s),
    ensures
        s.len() <= 0x8000_0000,
{
    if s.len() > 0x8000_0000 {
        assert(has_value(s, 0x8000_0000));
    }
}

/// The inverse of a permutation is a permutation.
pub proof fn lemma_inverse_is_permutation(inv: Seq<i32>, s: Seq<i32>)
    requires
        is_inverse_of(inv, s),
    ensures
        is_permutation(inv),
        is_permutation(s),
{
    assert forall|i: int, j: int|
        0 <= i < inv.len() && 0 <= j < inv.len() && #[trigger] inv[i] == #[trigger] inv[j] implies i
        == j by {
        assert(s[inv[i] as int] == i);
        assert(s[inv[j] as int] == j);
    }
    assert forall|p: int| 0 <= p < inv.len() implies #[trigger] has_value(inv, p) by {
        assert(inv[s[p] as int] == p);
    }
    assert forall|i: int, j: int|
        0 <= i < s.len() && 0 <= j < s.len() && #[trigger] s[i] == #[trigger] s[j] implies i
        == j by {
        assert(inv[s[i] as int] == i);
        assert(inv[s[j] as int] == j);
    }
    assert forall|p: int| 0 <= p < s.len() implies #[trigger] has_value(s, p) by {
        assert(s[inv[p] as int] == p);
    }
}

/// Every entry of a predecessor array is a text position.
pub proof fn lemma_phi_in_range(phi: Seq<i32>, sa: Seq<i32>, p: int)
    requires
        is_permutation(sa),
        is_phi_of(phi, sa),
        0 <= p < sa.len(),
    ensures
        0 <= phi[p] < sa.len(),
        phi[p] != p || sa.len() == 1,
{
    assert(has_value(sa, p));
    let r = choose|r: int| 0 <= r < sa.len() && sa[r] == p;
    assert(phi_at(phi, sa, r));
}

/// The inverse permutation: `inv[arr[i]] == i` for every `i`.
pub fn inverse_permutation(arr: &[i32]) -> (inv: Vec<i32>)
    requires
        is_permutation(arr@),
    ensures
        is_inverse_of(inv@, arr@),
        is_permutation(inv@),
{
    let n = arr.len();
    let mut inv: Vec<i32> = vec![0; n];
    proof {
        lemma_permutation_len(arr@);
    }
    let mut i: usize = 0;
    while i < n
        invariant
            n == arr.len(),
            n <= 0x8000_0000,
            inv.len() == n,
            is_permutation(arr@),
            i <= n,
            forall|j: int| 0 <= j < i ==> inv[#[trigger] arr[j] as int] == j,
        decreases n - i,
    {
        inv[arr[i] as usize] = i as i32;
        i += 1;
    }
    proof {
        assert forall|p: int| 0 <= p < n implies 0 <= #[trigger] inv[p] < n && arr[inv[p] as int]
            == p by {
            assert(has_value(arr@, p));
            let r = choose|r: int| 0 <= r < n && arr[r] == p;
            assert(inv[arr[r] as int] == r);
        }
        lemma_inverse_is_permutation(inv@, arr@);
    }
    inv
}

/// The predecessor array of a suffix array.
pub fn compute_phi(sa: &[i32]) -> (phi: Vec<i32>)
    requires
        sa.len() > 0,
        is_permutation(sa@),
    ensures
        is_phi_of(phi@, sa@),
{
    let n = sa.len();
    let mut phi: Vec<i32> = vec![0; n];
    let mut i: usize = 1;
    while i < n
        invariant
            n == sa.len(),
            phi.len() == n,
            is_permutation(sa@),
            1 <= i <= n,
            forall|j: int| 1 <= j < i ==> #[trigger] phi_at(phi@, sa@, j),
        decreases n - i,
    {
        let ghost before = phi@;
        phi[sa[i] as usize] = sa[i - 1];
        proof {
            assert forall|j: int| 1 <= j < i + 1 implies #[trigger] phi_at(phi@, sa@, j) by {
                if j < i {
                    assert(phi_at(before, sa@, j));
                }
            }
        }
        i += 1;
    }
    let ghost before = phi@;
    phi[sa[0] as usize] = sa[n - 1];
    proof {
        assert forall|j: int| 0 <= j < n implies #[trigger] phi_at(phi@, sa@, j) by {
            if j > 0 {
                assert(phi_at(before, sa@, j));
            }
        }
    }
    phi
}

/// The rank of a text position: where it stands in the suffix array.
pub open spec fn rank_of(sa: Seq<i32>, p: int) -> int {
    choose|r: int| 0 <= r < sa.len() && sa[r] == p
}

pub proof fn lemma_rank_of(sa: Seq<i32>, p: int)
    requires
        is_permutation(sa),
        0 <= p < sa.len(),
    ensures
        0 <= rank_of(sa, p) < sa.len(),
        sa[rank_of(sa, p)] == p,
{
    assert(has_value(sa, p));
}

/// In a suffix array, a smaller suffix has the smaller rank.
pub proof fn lemma_rank_order(t: Seq<u8>, sa: Seq<i32>, i: int, j: int)
    requires
        is_suffix_array(t, sa),
        0 <= i < sa.len(),
        0 <= j < sa.len(),
        suffix_lt(t, sa[i] as int, sa[j] as int),
    ensures
        i < j,
{
    if j < i {
        assert(ranked_before(t, sa, j, i));
        lemma_suffix_lt_total(t, sa[i] as int, sa[j] as int);
    } else if i == j {
        lemma_suffix_lt_total(t, sa[i] as int, sa[i] as int);
    }
}

/// Moving one position to the right shortens the common prefix with the
/// predecessor suffix by at most one byte.
pub proof fn lemma_plcp_step(t: Seq<u8>, sa: Seq<i32>, phi: Seq<i32>, p: int)
    requires
        is_suffix_array(t, sa),
        is_phi_of(phi, sa),
        0 <= p,
        p + 1 < t.len(),
    ensures
        lcp_len(t, p + 1, phi[p + 1] as int) + 1 >= lcp_len(t, p, phi[p] as int),
{
    let n = t.len() as int;
    let q = phi[p] as int;
    let l = lcp_len(t, p, q) as int;
    lemma_phi_in_range(phi, sa, p);
    lemma_phi_in_range(phi, sa, p + 1);
    lemma_lcp_len_props(t, p, q);
    if l >= 2 {
        lemma_rank_of(sa, p);
        lemma_rank_of(sa, p + 1);
        let r = rank_of(sa, p);
        let r1 = rank_of(sa, p + 1);
        assert(same_at(t, p, q, 0));
        if r == 0 {
            // the smallest suffix cannot share its first byte with the largest
            // unless it is the last position of the text
            assert(phi_at(phi, sa, 0));
            assert(q == sa[n - 1]);
            assert(ranked_before(t, sa, 0, r1));
            let m = lcp_len(t, p, p + 1) as int;
            lemma_lcp_len_props(t, p, p + 1);
            let s = p + m;
            assert(t[s] < t[s + 1]);
            if s != p {
                lemma_rank_of(sa, s);
                let rs = rank_of(sa, s);
                assert(ranked_before(t, sa, 0, rs));
                if t[s] < t[p] {
                    lemma_suffix_lt_first_byte(t, s, p);
                    lemma_suffix_lt_total(t, s, p);
                }
            }
            assert(t[q] < t[s + 1]);
            lemma_suffix_lt_first_byte(t, q, s + 1);
            lemma_rank_of(sa, s + 1);
            let r2 = rank_of(sa, s + 1);
            assert(r2 != n - 1);
            assert(ranked_before(t, sa, r2, n - 1));
            lemma_suffix_lt_total(t, q, s + 1);
            assert(false);
        } else {
            assert(phi_at(phi, sa, r));
            assert(ranked_before(t, sa, r - 1, r));
            lemma_lcp_len_symmetric(t, p, q);
            lemma_lcp_len_props(t, q, p);
            assert(same_at(t, q, p, 0));
            assert(lcp_len(t, q, p) == 1 + lcp_len(t, q + 1, p + 1));
            assert(suffix_lt(t, q + 1, p + 1));
            lemma_rank_of(sa, q + 1);
            let rq = rank_of(sa, q + 1);
            lemma_rank_order(t, sa, rq, r1);
            let u = sa[r1 - 1] as int;
            assert(phi_at(phi, sa, r1));
            if rq < r1 - 1 {
                assert(ranked_before(t, sa, rq, r1 - 1));
                assert(ranked_before(t, sa, r1 - 1, r1));
                lemma_suffix_lt_transitive(t, q + 1, u, p + 1);
            }
            lemma_lcp_len_symmetric(t, u, p + 1);
        }
    }
}

/// With a sentinel at the end, no suffix is a prefix of the suffix before it:
/// the common prefix ends before the text does.
pub proof fn lemma_plcp_bound(t: Seq<u8>, sa: Seq<i32>, phi: Seq<i32>, p: int)
    requires
        is_suffix_array(t, sa),
        is_phi_of(phi, sa),
        is_sentinel_terminated(t),
        t.len() >= 2,
        0 <= p < t.len(),
    ensures
        lcp_len(t, p, phi[p] as int) < t.len() - p,
{
    let n = t.len() as int;
    let q = phi[p] as int;
    let l = lcp_len(t, p, q) as int;
    lemma_phi_in_range(phi, sa, p);
    lemma_lcp_len_props(t, p, q);
    if p + l == n {
        assert(same_at(t, p, q, l - 1));
    }
}

/// The longest common prefix of every suffix with its predecessor in the
/// suffix array, by text position.
pub fn compute_plcp(text: &[u8], phi: &[i32]) -> (plcp: Vec<u32>)
    requires
        text.len() == phi.len(),
        is_phi_array(text@, phi@),
    ensures
        is_plcp_of(plcp@, text@, phi@),
        is_sentinel_terminated(text@) && text.len() >= 2 ==> forall|p: int|
            0 <= p < text.len() ==> #[trigger] plcp[p] < text.len() - p,
{
    let n = text.len();
    let mut plcp: Vec<u32> = vec![0; n];
    let mut length: usize = 0;
    let ghost sa = choose|sa: Seq<i32>| #[trigger] is_suffix_array(text@, sa) && is_phi_of(phi@, sa);
    proof {
        lemma_permutation_len(sa);
    }
    let mut position_b: usize = 0;
    while position_b < n
        invariant
            n == text.len(),
            n == phi.len(),
            n <= 0x8000_0000,
            plcp.len() == n,
            is_suffix_array(text@, sa),
            is_phi_of(phi@, sa),
            position_b <= n,
            position_b < n ==> length <= lcp_len(text@, position_b as int, phi[position_b as int] as int),
            position_b == n ==> length <= n,
            forall|p: int|
                0 <= p < position_b ==> #[trigger] plcp[p] == lcp_len(text@, p, phi[p] as int),
        decreases n - position_b,
    {
        proof {
            lemma_phi_in_range(phi@, sa, position_b as int);
            lemma_lcp_len_props(text@, position_b as int, phi[position_b as int] as int);
        }
        let position_a = phi[position_b] as usize;
        while position_a + length < n && position_b + length < n && text[position_a + length]
            == text[position_b + length]
            invariant
                n == text.len(),
                position_a < n,
                position_b < n,
                position_a + length <= n,
                position_b + length <= n,
                agree(text@, position_b as int, position_a as int, length as int),
            decreases n - length,
        {
            proof {
                assert forall|x: int| 0 <= x < length + 1 implies #[trigger] same_at(
                    text@,
                    position_b as int,
                    position_a as int,
                    x,
                ) by {}
            }
            length += 1;
        }
        proof {
            lemma_lcp_len_is(text@, position_b as int, position_a as int, length as int);
        }
        plcp[position_b] = length as u32;
        if length > 0 {
            length -= 1;
        }
        proof {
            if position_b + 1 < n {
                lemma_plcp_step(text@, sa, phi@, position_b as int);
            }
        }
        position_b += 1;
    }
    proof {
        if is_sentinel_terminated(text@) && n >= 2 {
            assert forall|p: int| 0 <= p < n implies #[trigger] plcp[p] < n - p by {
                lemma_plcp_bound(text@, sa, phi@, p);
            }
        }
    }
    plcp
}

/// Reorders `plcp` from text order into rank order: `lcp[i] == plcp[sa[i]]`.
pub fn compute_lcp(plcp: &[u32], sa: &[i32]) -> (lcp: Vec<u32>)
    requires
        plcp.len() == sa.len(),
        forall|i: int| 0 <= i < sa.len() ==> 0 <= #[trigger] sa[i] < sa.len(),
    ensures
        lcp.len() == sa.len(),
        forall|i: int| 0 <= i < sa.len() ==> #[trigger] lcp[i] == plcp[sa[i] as int],
{
    let n = plcp.len();
    let mut lcp: Vec<u32> = vec![0; n];
    let mut i: usize = 0;
    while i < n
        invariant
            n == sa.len(),
            n == plcp.len(),
            lcp.len() == n,
            i <= n,
            forall|j: int| 0 <= j < sa.len() ==> 0 <= #[trigger] sa[j] < sa.len(),
            forall|j: int| 0 <= j < i ==> #[trigger] lcp[j] == plcp[sa[j] as int],
        decreases n - i,
    {
        lcp[i] = plcp[sa[i] as usize];
        i += 1;
    }
    lcp
}

/// What `compute_phi`, `compute_plcp` and `compute_lcp` produce in a row is
/// the LCP array of the text.
pub proof fn lemma_lcp_from_plcp(
    t: Seq<u8>,
    sa: Seq<i32>,
    phi: Seq<i32>,
    plcp: Seq<u32>,
    lcp: Seq<u32>,
)
    requires
        is_suffix_array(t, sa),
        is_phi_of(phi, sa),
        is_plcp_of(plcp, t, phi),
        lcp.len() == sa.len(),
        forall|i: int| 0 <= i < sa.len() ==> #[trigger] lcp[i] == plcp[sa[i] as int],
    ensures
        is_lcp_array(lcp, t, sa),
{
    assert forall|i: int| 1 <= i < sa.len() implies #[trigger] lcp[i] == lcp_len(
        t,
        sa[i - 1] as int,
        sa[i] as int,
    ) by {
        assert(phi_at(phi, sa, i));
        lemma_lcp_len_symmetric(t, sa[i] as int, sa[i - 1] as int);
    }
    if sa.len() > 0 {
        assert(phi_at(phi, sa, 0));
        assert(lcp[0] == plcp[sa[0] as int]);
    }
}

/// A permutation has one inverse only.
pub proof fn lemma_inverse_unique(s: Seq<i32>, first: Seq<i32>, second: Seq<i32>)
    requires
        is_inverse_of(first, s),
        is_inverse_of(second, s),
    ensures
        first == second,
{
    assert forall|p: int| 0 <= p < s.len() implies first[p] == second[p] by {
        assert(s[first[p] as int] == p);
        assert(second[s[first[p] as int] as int] == first[p]);
    }
    assert(first =~= second);
}

/// A suffix array has one predecessor array only.
pub proof fn lemma_phi_unique(sa: Seq<i32>, first: Seq<i32>, second: Seq<i32>)
    requires
        is_permutation(sa),
        is_phi_of(first, sa),
        is_phi_of(second, sa),
    ensures
        first == second,
{
    assert forall|p: int| 0 <= p < sa.len() implies first[p] == second[p] by {
        lemma_rank_of(sa, p);
        assert(phi_at(first, sa, rank_of(sa, p)));
        assert(phi_at(second, sa, rank_of(sa, p)));
    }
    assert(first =~= second);
}

/// The common prefix of the suffixes of rank `a` and `b` is the minimum of
/// the LCP array over the ranks `a + 1, .., b`.
pub proof fn lemma_range_min_is_lcp(t: Seq<u8>, sa: Seq<i32>, lcp: Seq<u32>, a: int, b: int)
    requires
        is_suffix_array(t, sa),
        is_lcp_array(lcp, t, sa),
        0 <= a < b < sa.len(),
    ensures
        range_min(lcp, a + 1, b + 1) == lcp_len(t, sa[a] as int, sa[b] as int),
    decreases b - a,
{
    assert(lcp[a + 1] == lcp_len(t, sa[a] as int, sa[a + 1] as int));
    if a + 1 == b {
        assert(range_min(lcp, a + 2, b + 1) == u32::MAX);
    } else {
        lemma_range_min_is_lcp(t, sa, lcp, a + 1, b);
        assert(ranked_before(t, sa, a, a + 1));
        assert(ranked_before(t, sa, a + 1, b));
        lemma_suffix_lt_transitive(t, sa[a] as int, sa[a + 1] as int, sa[b] as int);
    }
}

} // verus!
