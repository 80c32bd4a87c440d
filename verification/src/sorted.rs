//! Two sorted lists of the same things hold equal things at equal places,
//! whatever breaks the ties.

use vstd::prelude::*;

verus! {

/// `s` holds every number below its length once.
pub open spec fn is_listing(s: Seq<int>) -> bool {
    &&& forall|i: int| 0 <= i < s.len() ==> 0 <= #[trigger] s[i] < s.len()
    &&& forall|i: int, j: int| 0 <= i < j < s.len() ==> #[trigger] s[i] != #[trigger] s[j]
    &&& forall|p: int| 0 <= p < s.len() ==> #[trigger] s.contains(p)
}

/// No later entry of `s` is smaller than an earlier one.
pub open spec fn is_sorted_by(s: Seq<int>, lt: spec_fn(int, int) -> bool) -> bool {
    forall|i: int, j: int| 0 <= i < j < s.len() ==> !#[trigger] lt(s[j], s[i])
}

/// On the numbers below `n`, `lt` is the strict part of a total preorder.
pub open spec fn is_strict_weak_order(lt: spec_fn(int, int) -> bool, n: int) -> bool {
    &&& forall|x: int| 0 <= x < n ==> !#[trigger] lt(x, x)
    &&& forall|x: int, y: int, z: int|
        0 <= x < n && 0 <= y < n && 0 <= z < n && #[trigger] lt(x, y) && !#[trigger] lt(z, y)
            ==> lt(x, z)
    &&& forall|x: int, y: int, z: int|
        0 <= x < n && 0 <= y < n && 0 <= z < n && !#[trigger] lt(y, x) && #[trigger] lt(y, z)
            ==> lt(x, z)
}

/// Of `m + 1` things in `m` places, two share a place.
pub proof fn lemma_pigeonhole(f: Seq<int>, m: int)
    requires
        0 <= m,
        f.len() == m + 1,
        forall|k: int| 0 <= k < f.len() ==> 0 <= #[trigger] f[k] < m,
    ensures
        exists|i: int, j: int| 0 <= i < j < f.len() && #[trigger] f[i] == #[trigger] f[j],
    decreases m,
{
    if m <= 0 {
        assert(0 <= f[0] < m);
    } else if exists|k: int| 0 <= k < m && #[trigger] f[k] == f[m] {
        let k = choose|k: int| 0 <= k < m && #[trigger] f[k] == f[m];
        assert(f[k] == f[m]);
    } else {
        let last = f[m];
        let g = Seq::new(
            m as nat,
            |k: int|
                if f[k] == m - 1 {
                    last
                } else {
                    f[k]
                },
        );
        assert forall|k: int| 0 <= k < g.len() implies 0 <= #[trigger] g[k] < m - 1 by {
            if f[k] == m - 1 {
                assert(f[k] != f[m]);
            }
        }
        lemma_pigeonhole(g, m - 1);
        let (a, b) = choose|a: int, b: int| 0 <= a < b < g.len() && #[trigger] g[a] == #[trigger] g[b];
        assert(f[a] != f[m]);
        assert(f[b] != f[m]);
        assert(f[a] == f[b]);
    }
}

/// The place of `p` in a listing.
pub open spec fn place_of(s: Seq<int>, p: int) -> int {
    choose|i: int| 0 <= i < s.len() && s[i] == p
}

/// Two sorted listings of the same numbers hold at every place numbers of
/// which neither is smaller than the other.
pub proof fn lemma_sorted_listings_agree(
    first: Seq<int>,
    second: Seq<int>,
    lt: spec_fn(int, int) -> bool,
    i: int,
)
    requires
        first.len() == second.len(),
        is_listing(first),
        is_listing(second),
        is_strict_weak_order(lt, first.len() as int),
        is_sorted_by(first, lt),
        is_sorted_by(second, lt),
        0 <= i < first.len(),
    ensures
        !lt(first[i], second[i]),
        !lt(second[i], first[i]),
{
    lemma_sorted_not_before(first, second, lt, i);
    lemma_sorted_not_before(second, first, lt, i);
}

proof fn lemma_sorted_not_before(
    first: Seq<int>,
    second: Seq<int>,
    lt: spec_fn(int, int) -> bool,
    i: int,
)
    requires
        first.len() == second.len(),
        is_listing(first),
        is_listing(second),
        is_strict_weak_order(lt, first.len() as int),
        is_sorted_by(first, lt),
        is_sorted_by(second, lt),
        0 <= i < first.len(),
    ensures
        !lt(first[i], second[i]),
{
    if lt(first[i], second[i]) {
        lemma_places_before(first, second, lt, i);
        let f = Seq::new((i + 1) as nat, |k: int| place_of(second, first[k]));
        lemma_pigeonhole(f, i);
        let (a, b) = choose|a: int, b: int| 0 <= a < b < f.len() && #[trigger] f[a] == #[trigger] f[b];
        assert(second.contains(first[a]));
        assert(second.contains(first[b]));
        assert(first[a] != first[b]);
    }
}

proof fn lemma_places_before(
    first: Seq<int>,
    second: Seq<int>,
    lt: spec_fn(int, int) -> bool,
    i: int,
)
    requires
        first.len() == second.len(),
        is_listing(first),
        is_listing(second),
        is_strict_weak_order(lt, first.len() as int),
        is_sorted_by(first, lt),
        is_sorted_by(second, lt),
        0 <= i < first.len(),
        lt(first[i], second[i]),
    ensures
        forall|k: int| 0 <= k <= i ==> 0 <= #[trigger] place_of(second, first[k]) < i,
{
    let n = first.len() as int;
    assert forall|k: int| 0 <= k <= i implies 0 <= #[trigger] place_of(second, first[k]) < i by {
        assert(second.contains(first[k]));
        let j = place_of(second, first[k]);
        assert(0 <= j < n && second[j] == first[k]);
        if j >= i {
            // first[k] <= first[i] < second[i] <= second[j]
            if j > i {
                assert(!lt(second[j], second[i]));
            } else {
                assert(!lt(second[i], second[i]));
            }
            assert(lt(first[i], second[j]));
            if k < i {
                assert(!lt(first[i], first[k]));
            } else {
                assert(!lt(first[i], first[i]));
            }
            assert(lt(first[k], second[j]));
            assert(!lt(second[j], second[j]));
        }
    }
}

} // verus!
