//! Suffix array construction, delegated to divsufsort.

use crate::rank_arrays::lemma_rank_order;
use crate::text::{has_value, is_suffix_array, lemma_suffix_lt_total, suffix_lt};
use vstd::prelude::*;

verus! {

/// `cdivsufsort::sort_in_place`: fills `sa` with the start positions of the
/// suffixes of `text` in increasing lexicographic order. The call panics
/// unless `sa` is as long as `text` and the length is below `i32::MAX`.
#[verifier::external_body]
fn sort_in_place(text: &[u8], sa: &mut Vec<i32>)
    requires
        old(sa).len() == text.len(),
        text.len() < i32::MAX,
    ensures
        is_suffix_array(text@, final(sa)@),
{
    cdivsufsort::sort_in_place(text, sa.as_mut_slice());
}

/// The suffix array of `text`.
pub fn suffix_array(text: &[u8]) -> (sa: Vec<i32>)
    requires
        text.len() < i32::MAX,
    ensures
        is_suffix_array(text@, sa@),
{
    let mut sa: Vec<i32> = vec![0; text.len()];
    sort_in_place(text, &mut sa);
    sa
}

/// A text has one suffix array only.
pub proof fn lemma_suffix_array_unique(t: Seq<u8>, sa1: Seq<i32>, sa2: Seq<i32>)
    requires
        is_suffix_array(t, sa1),
        is_suffix_array(t, sa2),
    ensures
        sa1 == sa2,
{
    assert forall|i: int| 0 <= i < sa1.len() implies sa1[i] == sa2[i] by {
        lemma_same_rank(t, sa1, sa2, i);
    }
    assert(sa1 =~= sa2);
}

proof fn lemma_same_rank(t: Seq<u8>, sa1: Seq<i32>, sa2: Seq<i32>, i: int)
    requires
        is_suffix_array(t, sa1),
        is_suffix_array(t, sa2),
        0 <= i < sa1.len(),
    ensures
        sa1[i] == sa2[i],
    decreases i,
{
    let p = sa1[i] as int;
    let q = sa2[i] as int;
    if p != q {
        lemma_suffix_lt_total(t, p, q);
        if suffix_lt(t, p, q) {
            assert(has_value(sa2, p));
            let j = choose|j: int| 0 <= j < sa2.len() && sa2[j] == p;
            lemma_rank_order(t, sa2, j, i);
            lemma_same_rank(t, sa1, sa2, j);
        } else {
            assert(has_value(sa1, q));
            let j = choose|j: int| 0 <= j < sa1.len() && sa1[j] == q;
            lemma_rank_order(t, sa1, j, i);
            lemma_same_rank(t, sa1, sa2, j);
        }
    }
}

} // verus!
