//! The Burrows-Wheeler transform: from a suffix array, from the sorted
//! rotations of the text, and from the suffix array of the least rotation.

use crate::lyndon::lyndon_conjugate;
use crate::naive_sort::{is_rotation_order, sorted_rotations};
use crate::rotation::is_least_rotation;
use crate::suffix_sort::suffix_array;
use crate::text::{has_value, is_suffix_array};
use vstd::prelude::*;

verus! {

/// The byte that stands before position `p` in `t`, the last byte for
/// position 0.
pub open spec fn byte_before(t: Seq<u8>, p: int) -> u8 {
    t[(t.len() + p - 1) % (t.len() as int)]
}

/// For every entry of `sa`, the byte of `t` that stands before it.
pub open spec fn bwt_by_positions(t: Seq<u8>, sa: Seq<usize>) -> Seq<u8> {
    Seq::new(t.len(), |i: int| byte_before(t, sa[i] as int))
}

/// For every entry of `sa`, the byte of `t` that stands before it.
pub open spec fn bwt_by_ranks(t: Seq<u8>, sa: Seq<i32>) -> Seq<u8> {
    Seq::new(t.len(), |i: int| byte_before(t, sa[i] as int))
}

/// The transform that a list of positions defines: for each position in
/// turn the byte that stands before it in the text.
pub fn bwt_from_sa(text: &[u8], sa: &Vec<usize>) -> (bwt: Vec<u8>)
    requires
        text.len() > 0,
        sa.len() >= text.len(),
        forall|i: int| 0 <= i < text.len() ==> text.len() + #[trigger] sa[i] <= usize::MAX,
    ensures
        bwt@ == bwt_by_positions(text@, sa@),
{
    let n = text.len();
    let mut bwt: Vec<u8> = vec![text[0]; n];
    let mut i: usize = 0;
    while i < n
        invariant
            n == text.len(),
            n > 0,
            sa.len() >= n,
            bwt.len() == n,
            i <= n,
            forall|k: int| 0 <= k < n ==> n + #[trigger] sa[k] <= usize::MAX,
            forall|k: int| 0 <= k < i ==> #[trigger] bwt[k] == byte_before(text@, sa[k] as int),
        decreases n - i,
    {
        bwt[i] = text[(n + sa[i] - 1) % n];
        i += 1;
    }
    assert(bwt@ =~= bwt_by_positions(text@, sa@));
    bwt
}

/// The Burrows-Wheeler transform of `text`, by way of its suffix array. No
/// byte but the last may be 0.
pub fn bwt_from_text_by_sa(text: &Vec<u8>) -> (bwt: Vec<u8>)
    requires
        0 < text.len() < i32::MAX,
        forall|i: int| 0 <= i < text.len() - 1 ==> #[trigger] text[i] != 0,
    ensures
        exists|sa: Seq<i32>| #[trigger] is_suffix_array(text@, sa) && bwt@ == bwt_by_ranks(text@, sa),
{
    let n = text.len();
    let sa = suffix_array(text.as_slice());
    let mut bwt: Vec<u8> = vec![text[0]; n];
    let mut i: usize = 0;
    while i < n
        invariant
            n == text.len(),
            0 < n < i32::MAX,
            sa.len() == n,
            bwt.len() == n,
            i <= n,
            is_suffix_array(text@, sa@),
            forall|k: int| 0 <= k < i ==> #[trigger] bwt[k] == byte_before(text@, sa[k] as int),
        decreases n - i,
    {
        bwt[i] = text[(n + (sa[i] as usize) - 1) % n];
        i += 1;
    }
    assert(bwt@ =~= bwt_by_ranks(text@, sa@));
    bwt
}

/// The last column of the matrix of sorted rotations: for every rotation in
/// increasing order the byte that stands before its start. It takes a number
/// of comparisons that is quadratic in the length of the text.
pub fn bwt_by_matrix_naive(text: &[u8]) -> (bwt: Vec<u8>)
    requires
        text.len() <= usize::MAX / 2,
    ensures
        exists|order: Seq<usize>| #[trigger]
            is_rotation_order(text@, order) && bwt@ == bwt_by_positions(text@, order),
{
    let n = text.len();
    let indices = sorted_rotations(text);
    let mut bwt: Vec<u8> = Vec::with_capacity(n);
    let mut i: usize = 0;
    while i < n
        invariant
            n == text.len(),
            n <= usize::MAX / 2,
            bwt.len() == i,
            i <= n,
            is_rotation_order(text@, indices@),
            forall|k: int| 0 <= k < i ==> #[trigger] bwt[k] == byte_before(text@, indices[k] as int),
        decreases n - i,
    {
        bwt.push(text[(indices[i] + n - 1) % n]);
        i += 1;
    }
    assert(bwt@ =~= bwt_by_positions(text@, indices@));
    bwt
}

/// The rotation of `t` that starts at `c`, with a 0 byte behind it.
pub open spec fn conjugate_text(t: Seq<u8>, c: int) -> Seq<u8> {
    t.subrange(c, t.len() as int) + t.subrange(0, c) + seq![0u8]
}

/// `bwt` is the transform of the least rotation of `t`, taken by way of the
/// suffix array of that rotation with a 0 byte behind it, and with the 0 byte
/// taken out of the result.
pub open spec fn is_conjugate_bwt(t: Seq<u8>, bwt: Seq<u8>) -> bool {
    exists|c: int, sa: Seq<i32>, z: int|
        #![trigger is_suffix_array(conjugate_text(t, c), sa), sa[z]]
        {
            &&& is_least_rotation(t, c)
            &&& is_suffix_array(conjugate_text(t, c), sa)
            &&& 0 <= z < sa.len()
            &&& sa[z] == 0
            &&& bwt == bwt_by_ranks(conjugate_text(t, c), sa).remove(z)
        }
}

/// The Burrows-Wheeler transform by the matrix of rotations, computed without
/// the matrix: the text is rotated to its least rotation, a 0 byte is put
/// behind it, and the transform is taken by way of the suffix array; the 0
/// byte is then taken out. The text itself may hold no 0 byte.
pub fn bwt_by_matrix(text: &[u8]) -> (bwt: Vec<u8>)
    requires
        0 < text.len() < i32::MAX - 1,
        text.len() <= usize::MAX / 2,
        forall|i: int| 0 <= i < text.len() ==> #[trigger] text[i] != 0,
    ensures
        is_conjugate_bwt(text@, bwt@),
{
    let n = text.len();
    let conjugate_start = lyndon_conjugate(text);
    let mut newtext: Vec<u8> = Vec::new();
    let mut i: usize = conjugate_start;
    while i < n
        invariant
            n == text.len(),
            conjugate_start <= i <= n,
            newtext@ == text@.subrange(conjugate_start as int, i as int),
        decreases n - i,
    {
        newtext.push(text[i]);
        assert(newtext@ =~= text@.subrange(conjugate_start as int, i + 1));
        i += 1;
    }
    let mut i: usize = 0;
    while i < conjugate_start
        invariant
            n == text.len(),
            conjugate_start < n,
            i <= conjugate_start,
            newtext@ == text@.subrange(conjugate_start as int, n as int) + text@.subrange(0, i as int),
        decreases conjugate_start - i,
    {
        newtext.push(text[i]);
        assert(newtext@ =~= text@.subrange(conjugate_start as int, n as int) + text@.subrange(
            0,
            i + 1,
        ));
        i += 1;
    }
    newtext.push(0u8);
    let ghost rotated = conjugate_text(text@, conjugate_start as int);
    assert(newtext@ =~= rotated);
    let mut bwt = bwt_from_text_by_sa(&newtext);
    let ghost sa = choose|sa: Seq<i32>| #[trigger]
        is_suffix_array(rotated, sa) && bwt@ == bwt_by_ranks(rotated, sa);
    let ghost z = choose|z: int| 0 <= z < sa.len() && sa[z] == 0;
    proof {
        assert(has_value(sa, 0));
        assert forall|k: int| 0 <= k < n + 1 implies (#[trigger] bwt[k] == 0) == (k == z) by {
            let p = sa[k] as int;
            if p == 0 {
                assert((n + 1 + 0 - 1) % (n + 1) == n) by (nonlinear_arith)
                    requires
                        n >= 0,
                ;
            } else {
                assert((n + 1 + p - 1) % (n + 1) == p - 1) by (nonlinear_arith)
                    requires
                        1 <= p <= n,
                ;
            }
        }
    }
    let mut k: usize = 0;
    while bwt[k] != 0
        invariant
            bwt.len() == n + 1,
            0 <= k <= z,
            0 <= z < n + 1,
            forall|k: int| 0 <= k < n + 1 ==> (#[trigger] bwt[k] == 0) == (k == z),
        decreases z - k,
    {
        k += 1;
    }
    bwt.remove(k);
    bwt
}

} // verus!
