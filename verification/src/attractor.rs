//! String attractors: a set of text positions is an attractor if every
//! substring has an occurrence that covers one of them. The check walks the
//! edges of the implicit suffix tree.

use crate::bit_index::{
    bits_set, bits_with_fill, count_true, indexed_bits, lemma_count_true_grows,
    lemma_count_true_monotone, marked_bits, PositionSet, rank_over, select_over, set_get_bit,
    set_rank1, set_select1,
};
use crate::interval_tree::{
    edge_covers, edge_ok, interval_edges, is_interval_input, is_strict_input, lcp_ends_early,
    lcp_intervals, lemma_edge_occurrences, lemma_interval_shares_prefix, on_edge, SuffixEdge,
};
use crate::range_min::{lemma_range_min_attained, lemma_range_min_le, range_min, RangeMinimumIndex};
use crate::rank_arrays::{
    compute_lcp, compute_phi, compute_plcp, is_lcp_array, lemma_lcp_from_plcp, lemma_rank_of,
    rank_of,
};
use crate::suffix_sort::{lemma_suffix_array_unique, suffix_array};
use crate::text::{
    is_sentinel_terminated, is_suffix_array, lcp_len, lemma_lcp_below_end, lemma_lcp_len_at_least,
    lemma_lcp_len_props, ranked_before, same_at,
};
use vstd::prelude::*;

verus! {

/// For every text position, whether it is one of `positions`.
pub open spec fn marks_of(positions: Seq<u64>, n: nat) -> Seq<bool> {
    Seq::new(n, |p: int| positions.contains(p as u64))
}

/// The first set bit at or after `p`, or the number of bits where there is
/// none.
pub open spec fn first_mark_from(bits: Seq<bool>, p: int) -> int
    decreases bits.len() - p,
{
    if p < 0 || p >= bits.len() {
        bits.len() as int
    } else if bits[p] {
        p
    } else {
        first_mark_from(bits, p + 1)
    }
}

/// How far it is from `p` to the first set bit at or after `p`; the number
/// of bits where there is none.
pub open spec fn mark_distance(bits: Seq<bool>, p: int) -> int {
    if first_mark_from(bits, p) >= bits.len() {
        bits.len() as int
    } else {
        first_mark_from(bits, p) - p
    }
}

/// `d` holds, by rank, the distance from the start of each suffix to the
/// first marked position at or after it.
pub open spec fn is_distance_array(d: Seq<u32>, sa: Seq<i32>, bits: Seq<bool>) -> bool {
    &&& d.len() == sa.len()
    &&& forall|i: int| 0 <= i < sa.len() ==> #[trigger] d[i] == mark_distance(bits, sa[i] as int)
}

/// The shortest substring on the edge has an occurrence that covers a marked
/// position: some suffix below the child is nearer to one than the parent is
/// deep.
pub open spec fn edge_covered(d: Seq<u32>, edge: SuffixEdge) -> bool {
    range_min(d, edge.child.begin as int, edge.child.end + 1) <= edge.parent.depth
}

/// The substrings that no marked position covers, one for every edge that is
/// not covered: where it starts in the text, and its length.
pub open spec fn uncovered_upto(
    sa: Seq<i32>,
    d: Seq<u32>,
    edges: Seq<SuffixEdge>,
    k: int,
) -> Seq<(usize, usize)>
    decreases k,
{
    if k <= 0 {
        Seq::empty()
    } else if edge_covered(d, edges[k - 1]) {
        uncovered_upto(sa, d, edges, k - 1)
    } else {
        uncovered_upto(sa, d, edges, k - 1).push(
            (sa[edges[k - 1].child.begin as int] as usize, (edges[k - 1].parent.depth + 1) as usize),
        )
    }
}

/// The uncovered substrings of `t` under the marks `bits`.
pub open spec fn uncovered_of(t: Seq<u8>, bits: Seq<bool>, found: Seq<(usize, usize)>) -> bool {
    exists|sa: Seq<i32>, lcp: Seq<u32>, d: Seq<u32>|
        #![trigger is_distance_array(d, sa, bits), is_lcp_array(lcp, t, sa)]
        {
            &&& is_suffix_array(t, sa)
            &&& is_lcp_array(lcp, t, sa)
            &&& is_distance_array(d, sa, bits)
            &&& found == uncovered_upto(
                sa,
                d,
                interval_edges(t, sa, lcp),
                interval_edges(t, sa, lcp).len() as int,
            )
        }
}

/// No set bit from `p` up to `q`, and one at `q`: `q` is the first from `p`.
proof fn lemma_first_mark(bits: Seq<bool>, p: int, q: int)
    requires
        0 <= p <= q <= bits.len(),
        forall|x: int| p <= x < q ==> !#[trigger] bits[x],
        q < bits.len() ==> bits[q],
    ensures
        first_mark_from(bits, p) == q,
    decreases q - p,
{
    if p < q {
        lemma_first_mark(bits, p + 1, q);
    }
}

/// Equal counts up to `a` and up to `b` leave no set bit in between.
proof fn lemma_no_mark_between(bits: Seq<bool>, a: int, b: int)
    requires
        0 <= a <= b,
        count_true(bits, a) == count_true(bits, b),
    ensures
        forall|x: int| a <= x < b ==> !#[trigger] bits[x],
{
    assert forall|x: int| a <= x < b implies !#[trigger] bits[x] by {
        if bits[x] {
            lemma_count_true_grows(bits, a, x, b);
        }
    }
}

/// The marks for a list of positions, as a structure that answers rank and
/// select queries.
fn mark_positions(n: usize, attractor: &[u64]) -> (set: PositionSet)
    requires
        forall|k: int| 0 <= k < attractor.len() ==> #[trigger] attractor[k] < n,
    ensures
        indexed_bits(set) == marks_of(attractor@, n as nat),
{
    let mut bits = bits_with_fill(n as u64, false);
    let mut k: usize = 0;
    assert(marked_bits(bits) =~= marks_of(attractor@.take(0), n as nat));
    while k < attractor.len()
        invariant
            k <= attractor.len(),
            forall|k: int| 0 <= k < attractor.len() ==> #[trigger] attractor[k] < n,
            marked_bits(bits) == marks_of(attractor@.take(k as int), n as nat),
        decreases attractor.len() - k,
    {
        let ghost before = marked_bits(bits);
        bits_set(&mut bits, attractor[k], true);
        proof {
            let now = marks_of(attractor@.take(k + 1), n as nat);
            assert forall|p: int| 0 <= p < n implies marked_bits(bits)[p] == now[p] by {
                let shorter = attractor@.take(k as int);
                let longer = attractor@.take(k + 1);
                if shorter.contains(p as u64) {
                    let x = choose|x: int| 0 <= x < shorter.len() && shorter[x] == p as u64;
                    assert(longer[x] == p as u64);
                }
                if p == attractor[k as int] {
                    assert(longer[k as int] == p as u64);
                }
                if longer.contains(p as u64) {
                    let x = choose|x: int| 0 <= x < longer.len() && longer[x] == p as u64;
                    if x < k {
                        assert(shorter[x] == p as u64);
                    }
                }
            }
            assert(marked_bits(bits) =~= now);
        }
        k += 1;
    }
    assert(attractor@.take(k as int) =~= attractor@);
    select_over(rank_over(bits))
}

/// For every rank, the distance from the suffix to the first marked position
/// at or after its start.
fn mark_distances(sa: &[i32], set: &PositionSet) -> (d: Vec<u32>)
    requires
        indexed_bits(*set).len() == sa.len(),
        sa.len() <= 0x7fff_ffff,
        forall|i: int| 0 <= i < sa.len() ==> 0 <= #[trigger] sa[i] < sa.len(),
    ensures
        is_distance_array(d@, sa@, indexed_bits(*set)),
{
    let n = sa.len();
    let ghost bits = indexed_bits(*set);
    let mut arr_d: Vec<u32> = vec![0; n];
    let mut i: usize = 0;
    while i < n
        invariant
            n == sa.len(),
            n <= 0x7fff_ffff,
            bits == indexed_bits(*set),
            bits.len() == n,
            arr_d.len() == n,
            i <= n,
            forall|i: int| 0 <= i < sa.len() ==> 0 <= #[trigger] sa[i] < sa.len(),
            forall|j: int| 0 <= j < i ==> #[trigger] arr_d[j] == mark_distance(bits, sa[j] as int),
            forall|j: int| i <= j < n ==> #[trigger] arr_d[j] == 0,
        decreases n - i,
    {
        let text_position = sa[i] as u64;
        if !set_get_bit(set, text_position) {
            let successor_rank = set_rank1(set, text_position);
            proof {
                lemma_count_true_monotone(bits, text_position + 1, n as int);
                crate::bit_index::lemma_count_true_at_most(bits, n as int);
            }
            match set_select1(set, successor_rank) {
                Some(pos) => {
                    proof {
                        if pos < text_position {
                            lemma_count_true_grows(bits, pos as int, pos as int, text_position as int);
                        }
                        lemma_no_mark_between(bits, text_position as int, pos as int);
                        lemma_first_mark(bits, text_position as int, pos as int);
                    }
                    arr_d[i] = (pos - text_position) as u32;
                },
                None => {
                    proof {
                        lemma_no_mark_between(bits, text_position as int, n as int);
                        lemma_first_mark(bits, text_position as int, n as int);
                    }
                    arr_d[i] = n as u32;
                },
            }
        }
        i += 1;
    }
    arr_d
}

/// The suffix array and the LCP array of a text with a sentinel are what the
/// interval tree is built from.
pub proof fn lemma_interval_input(t: Seq<u8>, sa: Seq<i32>, lcp: Seq<u32>)
    requires
        is_sentinel_terminated(t),
        t.len() <= 0x7fff_ffff,
        is_suffix_array(t, sa),
        is_lcp_array(lcp, t, sa),
    ensures
        is_interval_input(t, sa, lcp),
{
    assert forall|i: int| 1 <= i < sa.len() implies #[trigger] lcp_ends_early(sa, lcp, i) by {
        assert(lcp[i] == lcp_len(t, sa[i - 1] as int, sa[i] as int));
        lemma_lcp_below_end(t, sa[i - 1] as int, sa[i] as int);
    }
}

/// Nothing is uncovered exactly if every edge is covered.
pub proof fn lemma_uncovered_empty(sa: Seq<i32>, d: Seq<u32>, edges: Seq<SuffixEdge>, k: int)
    requires
        0 <= k <= edges.len(),
    ensures
        uncovered_upto(sa, d, edges, k).len() == 0 <==> forall|x: int|
            0 <= x < k ==> edge_covered(d, #[trigger] edges[x]),
    decreases k,
{
    if k > 0 {
        lemma_uncovered_empty(sa, d, edges, k - 1);
    }
}

/// An occurrence of the `l` bytes from `i` on covers a marked position.
pub open spec fn is_covered(t: Seq<u8>, bits: Seq<bool>, i: int, l: int) -> bool {
    exists|j: int, g: int|
        0 <= j <= g < j + l && g < t.len() && #[trigger] lcp_len(t, i, j) >= l && #[trigger] bits[g]
}

/// The marked positions are a string attractor of the text before its
/// sentinel: every substring has an occurrence that covers one of them.
pub open spec fn is_string_attractor(t: Seq<u8>, bits: Seq<bool>) -> bool {
    forall|i: int, l: int| 0 <= i && 1 <= l && i + l < t.len() ==> #[trigger] is_covered(t, bits, i, l)
}

/// The first set bit from `p` on lies at or behind `p`, no bit before it is
/// set, and it is set if it lies inside the bits.
proof fn lemma_first_mark_props(bits: Seq<bool>, p: int)
    requires
        0 <= p <= bits.len(),
    ensures
        p <= first_mark_from(bits, p) <= bits.len(),
        first_mark_from(bits, p) < bits.len() ==> bits[first_mark_from(bits, p)],
        forall|x: int| p <= x < first_mark_from(bits, p) ==> !#[trigger] bits[x],
    decreases bits.len() - p,
{
    if p < bits.len() && !bits[p] {
        lemma_first_mark_props(bits, p + 1);
    }
}

/// Two suffixes that share `l` bytes with a third share them with each
/// other.
proof fn lemma_lcp_common(t: Seq<u8>, a: int, b: int, c: int, l: int)
    requires
        0 <= a <= t.len(),
        0 <= b <= t.len(),
        0 <= c <= t.len(),
        0 <= l,
        lcp_len(t, a, b) >= l,
        lcp_len(t, a, c) >= l,
    ensures
        lcp_len(t, b, c) >= l,
{
    lemma_lcp_len_props(t, a, b);
    lemma_lcp_len_props(t, a, c);
    assert forall|x: int| 0 <= x < l implies #[trigger] same_at(t, b, c, x) by {
        assert(same_at(t, a, b, x));
        assert(same_at(t, a, c, x));
    }
    lemma_lcp_len_at_least(t, b, c, l);
}

/// With a sentinel at the end, the common prefix of two neighbours in rank
/// is shorter than the second of them without its sentinel.
pub proof fn lemma_strict_input(t: Seq<u8>, sa: Seq<i32>, lcp: Seq<u32>)
    requires
        is_sentinel_terminated(t),
        is_suffix_array(t, sa),
        is_lcp_array(lcp, t, sa),
    ensures
        is_strict_input(sa, lcp),
{
    let n = t.len() as int;
    assert forall|i: int| 1 <= i < sa.len() implies #[trigger] lcp[i] + sa[i] + 1 < sa.len() by {
        let p = sa[i - 1] as int;
        let q = sa[i] as int;
        assert(lcp[i] == lcp_len(t, p, q));
        assert(ranked_before(t, sa, i - 1, i));
        lemma_lcp_below_end(t, p, q);
        lemma_lcp_len_props(t, p, q);
        let m = lcp_len(t, p, q) as int;
        if q + m == n - 1 {
            assert(t[n - 1] < t[p + m]);
        }
    }
}

/// The check of the edges decides whether the marked positions are a string
/// attractor.
pub proof fn lemma_attractor_meaning(
    t: Seq<u8>,
    sa: Seq<i32>,
    lcp: Seq<u32>,
    d: Seq<u32>,
    bits: Seq<bool>,
    edges: Seq<SuffixEdge>,
)
    requires
        is_sentinel_terminated(t),
        t.len() >= 2,
        bits.len() == t.len(),
        is_suffix_array(t, sa),
        is_lcp_array(lcp, t, sa),
        is_distance_array(d, sa, bits),
        forall|k: int| 0 <= k < edges.len() ==> #[trigger] edge_ok(t, sa, lcp, edges[k]),
        forall|r: int, l: int|
            0 <= r < sa.len() && 1 <= l && l + sa[r] < sa.len() ==> #[trigger] edge_covers(
                edges,
                r,
                l,
            ),
    ensures
        (forall|k: int| 0 <= k < edges.len() ==> edge_covered(d, #[trigger] edges[k]))
            <==> is_string_attractor(t, bits),
{
    let n = t.len() as int;
    lemma_strict_input(t, sa, lcp);
    if forall|k: int| 0 <= k < edges.len() ==> edge_covered(d, #[trigger] edges[k]) {
        assert forall|i: int, l: int| 0 <= i && 1 <= l && i + l < n implies #[trigger] is_covered(
            t,
            bits,
            i,
            l,
        ) by {
            lemma_rank_of(sa, i);
            let r = rank_of(sa, i);
            assert(edge_covers(edges, r, l));
            let x = choose|x: int| 0 <= x < edges.len() && #[trigger] on_edge(edges[x], r, l);
            let edge = edges[x];
            assert(edge_ok(t, sa, lcp, edge));
            assert(edge_covered(d, edge));
            let b = edge.child.begin as int;
            let e = edge.child.end as int;
            let k = lemma_range_min_attained(d, b, e + 1);
            let j = sa[k] as int;
            assert(d[k] == mark_distance(bits, j));
            lemma_first_mark_props(bits, j);
            let g = first_mark_from(bits, j);
            lemma_interval_shares_prefix(t, sa, lcp, edge.child, r);
            lemma_interval_shares_prefix(t, sa, lcp, edge.child, k);
            lemma_lcp_common(t, sa[b] as int, i, j, l);
            assert(lcp_len(t, i, j) >= l && bits[g]);
        }
    }
    if is_string_attractor(t, bits) {
        assert forall|k: int| 0 <= k < edges.len() implies edge_covered(d, #[trigger] edges[k]) by {
            let edge = edges[k];
            assert(edge_ok(t, sa, lcp, edge));
            let b = edge.child.begin as int;
            let e = edge.child.end as int;
            if edge.parent.depth < edge.child.depth {
                let i = sa[b] as int;
                let l = edge.parent.depth + 1;
                assert(is_covered(t, bits, i, l));
                let (j, g) = choose|j: int, g: int|
                    0 <= j <= g < j + l && g < t.len() && #[trigger] lcp_len(t, i, j) >= l
                        && #[trigger] bits[g];
                lemma_lcp_len_props(t, i, j);
                lemma_rank_of(sa, j);
                let r = rank_of(sa, j);
                lemma_edge_occurrences(t, sa, lcp, edge, l, r);
                lemma_first_mark_props(bits, j);
                assert(d[r] == mark_distance(bits, j));
                lemma_range_min_le(d, b, e + 1, r);
            } else {
                assert(is_covered(t, bits, 0, 1));
                let (j, g) = choose|j: int, g: int|
                    0 <= j <= g < j + 1 && g < t.len() && #[trigger] lcp_len(t, 0, j) >= 1
                        && #[trigger] bits[g];
                lemma_rank_of(sa, g);
                let r = rank_of(sa, g);
                lemma_first_mark_props(bits, g);
                assert(d[r] == mark_distance(bits, g));
                lemma_range_min_le(d, b, e + 1, r);
            }
        }
    }
}

/// The substrings of `text` that no position of `attractor` covers: for
/// every edge of the suffix tree on which the nearest attractor position is
/// too far from every occurrence, the start of one occurrence and the length
/// of the shortest substring on the edge.
pub fn uncovered_substrings(text: &[u8], attractor: &[u64]) -> (found: Vec<(usize, usize)>)
    requires
        is_sentinel_terminated(text@),
        text[text.len() - 1] == 0,
        text.len() < i32::MAX,
        text.len() <= usize::MAX / 16,
        forall|k: int| 0 <= k < attractor.len() ==> #[trigger] attractor[k] < text.len(),
    ensures
        uncovered_of(text@, marks_of(attractor@, text.len() as nat), found@),
        text.len() >= 2 ==> (found@.len() == 0 <==> is_string_attractor(
            text@,
            marks_of(attractor@, text.len() as nat),
        )),
{
    let n = text.len();
    let sa = suffix_array(text);
    let phi = compute_phi(sa.as_slice());
    let plcp = compute_plcp(text, phi.as_slice());
    let lcp = compute_lcp(plcp.as_slice(), sa.as_slice());
    proof {
        lemma_lcp_from_plcp(text@, sa@, phi@, plcp@, lcp@);
        lemma_interval_input(text@, sa@, lcp@);
    }
    let suffix_edges = lcp_intervals(text, sa.as_slice(), lcp.as_slice());
    let attractor_positions = mark_positions(n, attractor);
    let arr_d = mark_distances(sa.as_slice(), &attractor_positions);
    let d_rmq = RangeMinimumIndex::build(arr_d.clone());
    let ghost bits = marks_of(attractor@, n as nat);
    let mut found: Vec<(usize, usize)> = Vec::new();
    let mut k: usize = 0;
    while k < suffix_edges.len()
        invariant
            n == text.len(),
            n == sa.len(),
            n == lcp.len(),
            n < i32::MAX,
            k <= suffix_edges.len(),
            d_rmq@ == arr_d@,
            arr_d.len() == n,
            forall|i: int| 0 <= i < sa.len() ==> 0 <= #[trigger] sa[i] < sa.len(),
            forall|x: int| 0 <= x < suffix_edges.len() ==> #[trigger] edge_ok(text@, sa@, lcp@, suffix_edges[x]),
            found@ == uncovered_upto(sa@, arr_d@, suffix_edges@, k as int),
        decreases suffix_edges.len() - k,
    {
        let edge = suffix_edges[k];
        assert(edge_ok(text@, sa@, lcp@, edge));
        let lcplength = edge.parent.depth as usize + 1;
        let rmq = d_rmq.query(edge.child.begin as usize, edge.child.end as usize + 1) as usize;
        if lcplength <= rmq {
            let startpos = sa[edge.child.begin as usize] as usize;
            found.push((startpos, lcplength));
        }
        k += 1;
    }
    proof {
        assert(is_distance_array(arr_d@, sa@, bits));
        assert(is_lcp_array(lcp@, text@, sa@));
        if n >= 2 {
            lemma_uncovered_empty(sa@, arr_d@, suffix_edges@, suffix_edges@.len() as int);
            lemma_attractor_meaning(text@, sa@, lcp@, arr_d@, bits, suffix_edges@);
        }
    }
    found
}

/// Whether `attractor` is a string attractor of `text`: whether every
/// substring of the text before its sentinel has an occurrence that covers
/// one of the positions. This is so if for every edge of the suffix tree
/// some occurrence of the shortest substring on the edge covers one of the
/// positions. For a text that is its sentinel alone, the answer is whether
/// there is a position at all.
pub fn is_attractor(text: &[u8], attractor: &[u64]) -> (valid: bool)
    requires
        is_sentinel_terminated(text@),
        text[text.len() - 1] == 0,
        text.len() < i32::MAX,
        text.len() <= usize::MAX / 16,
        forall|k: int| 0 <= k < attractor.len() ==> #[trigger] attractor[k] < text.len(),
    ensures
        exists|found: Seq<(usize, usize)>| #[trigger]
            uncovered_of(text@, marks_of(attractor@, text.len() as nat), found) && valid == (
            found.len() == 0),
        text.len() >= 2 ==> valid == is_string_attractor(
            text@,
            marks_of(attractor@, text.len() as nat),
        ),
{
    let found = uncovered_substrings(text, attractor);
    found.len() == 0
}

/// A text and a set of marks have one list of uncovered substrings only.
pub proof fn lemma_uncovered_unique(
    t: Seq<u8>,
    bits: Seq<bool>,
    first: Seq<(usize, usize)>,
    second: Seq<(usize, usize)>,
)
    requires
        uncovered_of(t, bits, first),
        uncovered_of(t, bits, second),
    ensures
        first == second,
{
    let (sa1, lcp1, d1) = choose|sa: Seq<i32>, lcp: Seq<u32>, d: Seq<u32>|
        #![trigger is_distance_array(d, sa, bits), is_lcp_array(lcp, t, sa)]
        {
            &&& is_suffix_array(t, sa)
            &&& is_lcp_array(lcp, t, sa)
            &&& is_distance_array(d, sa, bits)
            &&& first == uncovered_upto(
                sa,
                d,
                interval_edges(t, sa, lcp),
                interval_edges(t, sa, lcp).len() as int,
            )
        };
    let (sa2, lcp2, d2) = choose|sa: Seq<i32>, lcp: Seq<u32>, d: Seq<u32>|
        #![trigger is_distance_array(d, sa, bits), is_lcp_array(lcp, t, sa)]
        {
            &&& is_suffix_array(t, sa)
            &&& is_lcp_array(lcp, t, sa)
            &&& is_distance_array(d, sa, bits)
            &&& second == uncovered_upto(
                sa,
                d,
                interval_edges(t, sa, lcp),
                interval_edges(t, sa, lcp).len() as int,
            )
        };
    lemma_suffix_array_unique(t, sa1, sa2);
    assert(lcp1 =~= lcp2);
    assert(d1 =~= d2);
}

} // verus!
