//! Minimal unique substrings, read off the suffix array and the LCP array.

use crate::rank_arrays::{
    compute_lcp, compute_phi, compute_plcp, inverse_permutation, is_lcp_array, lemma_lcp_from_plcp,
};
use crate::suffix_sort::suffix_array;
use crate::text::{
    is_inverse_of, is_sentinel_terminated, is_suffix_array, lcp_len, lemma_lcp_below_end,
    lemma_lcp_len_symmetric, lemma_suffix_lt_transitive, ranked_before,
};
use vstd::prelude::*;

verus! {

/// How far the suffix at `i` agrees with a neighbour in rank: the larger of
/// the LCP entries at its rank and at the next rank, where there is a next.
pub open spec fn match_length(isa: Seq<i32>, lcp: Seq<u32>, i: int) -> int {
    let r = isa[i] as int;
    if r + 1 == lcp.len() {
        lcp[r] as int
    } else if lcp[r] >= lcp[r + 1] {
        lcp[r] as int
    } else {
        lcp[r + 1] as int
    }
}

/// A minimal unique substring starts at `i`: it does not reach the last
/// position, and moving its start one to the right does not shorten the
/// match.
pub open spec fn starts_mus(isa: Seq<i32>, lcp: Seq<u32>, i: int) -> bool {
    match_length(isa, lcp, i) + i < isa.len() - 1 && match_length(isa, lcp, i) <= match_length(
        isa,
        lcp,
        i + 1,
    )
}

/// The minimal unique substrings that start before `k`, as pairs of start
/// and length, by increasing start.
pub open spec fn mus_upto(isa: Seq<i32>, lcp: Seq<u32>, k: int) -> Seq<(usize, usize)>
    decreases k,
{
    if k <= 0 {
        Seq::empty()
    } else if starts_mus(isa, lcp, k - 1) {
        mus_upto(isa, lcp, k - 1).push(
            ((k - 1) as usize, (match_length(isa, lcp, k - 1) + 1) as usize),
        )
    } else {
        mus_upto(isa, lcp, k - 1)
    }
}

/// The arrays are of one length and `isa` holds ranks.
pub open spec fn is_mus_input(sa: Seq<i32>, isa: Seq<i32>, lcp: Seq<u32>) -> bool {
    &&& sa.len() > 0
    &&& isa.len() == sa.len()
    &&& lcp.len() == sa.len()
    &&& forall|i: int| 0 <= i < isa.len() ==> 0 <= #[trigger] isa[i] < isa.len()
    &&& forall|i: int| 0 <= i < isa.len() - 1 ==> #[trigger] match_length(isa, lcp, i) + i < isa.len()
}

fn get_length(isa: &[i32], lcp: &[u32], i: usize) -> (length: usize)
    requires
        isa.len() == lcp.len(),
        i < isa.len(),
        0 <= isa[i as int] < isa.len(),
    ensures
        length == match_length(isa@, lcp@, i as int),
{
    let isai = isa[i] as usize;
    if isai + 1 == isa.len() {
        lcp[isai] as usize
    } else if lcp[isai] >= lcp[isai + 1] {
        lcp[isai] as usize
    } else {
        lcp[isai + 1] as usize
    }
}

/// All minimal unique substrings of the text that the arrays belong to, as
/// pairs of start and length, by increasing start. The last position of the
/// text holds the sentinel and starts none.
pub fn get_mus(sa: &[i32], isa: &[i32], lcp: &[u32]) -> (mus: Vec<(usize, usize)>)
    requires
        is_mus_input(sa@, isa@, lcp@),
    ensures
        mus@ == mus_upto(isa@, lcp@, sa.len() - 1),
{
    let n = sa.len() - 1;
    let mut mus: Vec<(usize, usize)> = Vec::new();
    let mut i: usize = 0;
    while i < n
        invariant
            n == sa.len() - 1,
            is_mus_input(sa@, isa@, lcp@),
            i <= n,
            mus@ == mus_upto(isa@, lcp@, i as int),
        decreases n - i,
    {
        let elli = get_length(isa, lcp, i);
        assert(match_length(isa@, lcp@, i as int) + i < isa.len());
        if elli + i < n {
            let nextell = get_length(isa, lcp, i + 1);
            if elli <= nextell {
                mus.push((i, elli + 1));
            }
        }
        i += 1;
    }
    mus
}

/// The arrays of a text with a sentinel are what `get_mus` reads.
pub proof fn lemma_mus_input(t: Seq<u8>, sa: Seq<i32>, isa: Seq<i32>, lcp: Seq<u32>)
    requires
        is_sentinel_terminated(t),
        t.len() >= 2,
        is_suffix_array(t, sa),
        is_inverse_of(isa, sa),
        is_lcp_array(lcp, t, sa),
    ensures
        is_mus_input(sa, isa, lcp),
{
    assert forall|i: int| 0 <= i < isa.len() - 1 implies #[trigger] match_length(isa, lcp, i) + i
        < isa.len() by {
        let r = isa[i] as int;
        assert(sa[r] == i);
        if r >= 1 {
            lemma_lcp_below_end(t, sa[r - 1] as int, sa[r] as int);
        } else {
            lemma_lcp_below_end(t, sa[0] as int, sa[sa.len() - 1] as int);
        }
        if r + 1 < sa.len() {
            lemma_lcp_below_end(t, sa[r] as int, sa[r + 1] as int);
        }
    }
}

/// The minimal unique substrings of `text`, which has to end with a
/// sentinel, with every array built on the way.
pub fn mus_of_text(text: &[u8]) -> (mus: Vec<(usize, usize)>)
    requires
        is_sentinel_terminated(text@),
        2 <= text.len() < i32::MAX,
    ensures
        exists|sa: Seq<i32>, isa: Seq<i32>, lcp: Seq<u32>|
            #![trigger is_inverse_of(isa, sa), is_lcp_array(lcp, text@, sa)]
            is_suffix_array(text@, sa) && is_inverse_of(isa, sa) && is_lcp_array(lcp, text@, sa)
                && mus@ == mus_upto(isa, lcp, text.len() - 1),
        forall|i: int, k: int|
            0 <= i < text.len() && 0 <= k <= text.len() ==> (#[trigger] is_mus(text@, i, k)
                <==> mus@.contains((i as usize, k as usize))),
{
    let sa = suffix_array(text);
    let isa = inverse_permutation(sa.as_slice());
    let phi = compute_phi(sa.as_slice());
    let plcp = compute_plcp(text, phi.as_slice());
    let lcp = compute_lcp(plcp.as_slice(), sa.as_slice());
    proof {
        lemma_lcp_from_plcp(text@, sa@, phi@, plcp@, lcp@);
        lemma_mus_input(text@, sa@, isa@, lcp@);
    }
    let mus = get_mus(sa.as_slice(), isa.as_slice(), lcp.as_slice());
    proof {
        assert(is_inverse_of(isa@, sa@) && is_lcp_array(lcp@, text@, sa@));
        let n = text.len() as int;
        assert forall|i: int, k: int| 0 <= i < n && 0 <= k <= n implies (#[trigger] is_mus(
            text@,
            i,
            k,
        ) <==> mus@.contains((i as usize, k as usize))) by {
            lemma_mus_listed(isa@, lcp@, n - 1, i, k);
            if i < n - 1 {
                lemma_mus_meaning(text@, sa@, isa@, lcp@, i, k);
            }
        }
    }
    mus
}

/// The list holds a pair exactly if a minimal unique substring of that
/// length starts at that place.
pub proof fn lemma_mus_listed(isa: Seq<i32>, lcp: Seq<u32>, m: int, i: int, k: int)
    requires
        0 <= m < isa.len() <= 0x7fff_ffff,
        isa.len() == lcp.len(),
        forall|x: int| 0 <= x < isa.len() ==> 0 <= #[trigger] isa[x] < isa.len(),
        0 <= i < isa.len(),
        0 <= k <= isa.len(),
    ensures
        mus_upto(isa, lcp, m).contains((i as usize, k as usize)) <==> i < m && starts_mus(
            isa,
            lcp,
            i,
        ) && k == match_length(isa, lcp, i) + 1,
    decreases m,
{
    if m > 0 {
        lemma_mus_listed(isa, lcp, m - 1, i, k);
        let shorter = mus_upto(isa, lcp, m - 1);
        let list = mus_upto(isa, lcp, m);
        let pair = (i as usize, k as usize);
        if starts_mus(isa, lcp, m - 1) {
            let last = ((m - 1) as usize, (match_length(isa, lcp, m - 1) + 1) as usize);
            assert(list == shorter.push(last));
            assert(0 <= match_length(isa, lcp, m - 1) <= u32::MAX);
            assert((last == pair) == (i == m - 1 && k == match_length(isa, lcp, m - 1) + 1));
            if shorter.contains(pair) {
                let x = choose|x: int| 0 <= x < shorter.len() && shorter[x] == pair;
                assert(list[x] == pair);
            }
            if list.contains(pair) {
                let x = choose|x: int| 0 <= x < list.len() && list[x] == pair;
                if x < shorter.len() {
                    assert(shorter[x] == pair);
                } else {
                    assert(list[x] == last);
                }
            }
            if i == m - 1 && k == match_length(isa, lcp, i) + 1 {
                assert(list[list.len() - 1] == pair);
            }
        }
    }
}

/// The `k` bytes from `i` on stand nowhere else in the text.
pub open spec fn is_unique_at(t: Seq<u8>, i: int, k: int) -> bool {
    forall|j: int| 0 <= j < t.len() && j != i ==> #[trigger] lcp_len(t, i, j) < k
}

/// The `k` bytes from `i` on stand somewhere else in the text too.
pub open spec fn is_repeated_at(t: Seq<u8>, i: int, k: int) -> bool {
    exists|j: int| 0 <= j < t.len() && j != i && #[trigger] lcp_len(t, i, j) >= k
}

/// The `k` bytes from `i` on are a minimal unique substring: they end before
/// the sentinel and stand nowhere else, but without their last byte they
/// do, and without their first byte too.
pub open spec fn is_mus(t: Seq<u8>, i: int, k: int) -> bool {
    &&& 1 <= k
    &&& 0 <= i
    &&& i + k < t.len()
    &&& is_unique_at(t, i, k)
    &&& is_repeated_at(t, i, k - 1)
    &&& is_repeated_at(t, i + 1, k - 1)
}

/// No other suffix agrees with the suffix at `i` for longer than its
/// neighbours in rank do, and one of them agrees with it for that long.
pub proof fn lemma_match_length(t: Seq<u8>, sa: Seq<i32>, isa: Seq<i32>, lcp: Seq<u32>, i: int)
    requires
        t.len() >= 2,
        is_suffix_array(t, sa),
        is_inverse_of(isa, sa),
        is_lcp_array(lcp, t, sa),
        0 <= i < t.len(),
    ensures
        is_unique_at(t, i, match_length(isa, lcp, i) + 1),
        is_repeated_at(t, i, match_length(isa, lcp, i)),
{
    let n = t.len() as int;
    let r = isa[i] as int;
    let l = match_length(isa, lcp, i);
    assert(sa[r] == i);
    // the entry for rank 0 compares the smallest suffix with the largest
    if r == 0 && n >= 3 {
        assert(ranked_before(t, sa, 0, 1));
        assert(ranked_before(t, sa, 1, n - 1));
        lemma_suffix_lt_transitive(t, sa[0] as int, sa[1] as int, sa[n - 1] as int);
    }
    assert forall|j: int| 0 <= j < n && j != i implies #[trigger] lcp_len(t, i, j) < l + 1 by {
        let rj = isa[j] as int;
        assert(sa[rj] == j);
        lemma_lcp_len_symmetric(t, i, j);
        if rj < r {
            if rj < r - 1 {
                assert(ranked_before(t, sa, rj, r - 1));
                assert(ranked_before(t, sa, r - 1, r));
                lemma_suffix_lt_transitive(t, j, sa[r - 1] as int, i);
            }
            assert(lcp[r] == lcp_len(t, sa[r - 1] as int, sa[r] as int));
        } else {
            if rj > r + 1 {
                assert(ranked_before(t, sa, r, r + 1));
                assert(ranked_before(t, sa, r + 1, rj));
                lemma_suffix_lt_transitive(t, i, sa[r + 1] as int, j);
            }
            assert(lcp[r + 1] == lcp_len(t, sa[r] as int, sa[r + 1] as int));
        }
    }
    if r + 1 < n && (r == 0 || lcp[r] < lcp[r + 1]) {
        let j = sa[r + 1] as int;
        assert(lcp[r + 1] == lcp_len(t, sa[r] as int, sa[r + 1] as int));
        assert(lcp_len(t, i, j) >= l);
    } else {
        let j = sa[r - 1] as int;
        assert(lcp[r] == lcp_len(t, sa[r - 1] as int, sa[r] as int));
        lemma_lcp_len_symmetric(t, j, i);
        assert(lcp_len(t, i, j) >= l);
    }
}

/// What `get_mus` lists are the minimal unique substrings, and all of them.
pub proof fn lemma_mus_meaning(
    t: Seq<u8>,
    sa: Seq<i32>,
    isa: Seq<i32>,
    lcp: Seq<u32>,
    i: int,
    k: int,
)
    requires
        t.len() >= 2,
        is_suffix_array(t, sa),
        is_inverse_of(isa, sa),
        is_lcp_array(lcp, t, sa),
        0 <= i < t.len() - 1,
    ensures
        is_mus(t, i, k) <==> starts_mus(isa, lcp, i) && k == match_length(isa, lcp, i) + 1,
{
    lemma_match_length(t, sa, isa, lcp, i);
    lemma_match_length(t, sa, isa, lcp, i + 1);
    let l = match_length(isa, lcp, i);
    let next = match_length(isa, lcp, i + 1);
    if is_mus(t, i, k) {
        let a = choose|j: int| 0 <= j < t.len() && j != i && #[trigger] lcp_len(t, i, j) >= l;
        assert(lcp_len(t, i, a) < k);
        let b = choose|j: int| 0 <= j < t.len() && j != i && #[trigger] lcp_len(t, i, j) >= k - 1;
        assert(lcp_len(t, i, b) < l + 1);
        let c = choose|j: int|
            0 <= j < t.len() && j != i + 1 && #[trigger] lcp_len(t, i + 1, j) >= k - 1;
        assert(lcp_len(t, i + 1, c) < next + 1);
    }
    if starts_mus(isa, lcp, i) && k == l + 1 {
        let c = choose|j: int|
            0 <= j < t.len() && j != i + 1 && #[trigger] lcp_len(t, i + 1, j) >= next;
        assert(lcp_len(t, i + 1, c) >= k - 1);
    }
}

} // verus!
