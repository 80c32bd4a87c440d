//! Previous and next smaller values: for every index of a sequence, the
//! nearest index to the left (to the right) that holds a strictly smaller
//! value.

use vstd::prelude::*;

verus! {

/// Stands in a result where no index holds a smaller value.
pub const INVALID_VALUE: u32 = 0xffff_ffff;

/// `psv[i]` is the nearest index before `i` with a smaller value, or
/// `INVALID_VALUE` where every value before `i` is at least `arr[i]`.
pub open spec fn psv_at(psv: Seq<u32>, arr: Seq<i32>, i: int) -> bool {
    if psv[i] == INVALID_VALUE {
        forall|j: int| 0 <= j < i ==> #[trigger] arr[j] >= arr[i]
    } else {
        &&& psv[i] < i
        &&& arr[psv[i] as int] < arr[i]
        &&& forall|j: int| psv[i] < j < i ==> #[trigger] arr[j] >= arr[i]
    }
}

/// `psv` holds the previous smaller value of every index of `arr`.
pub open spec fn is_psv_of(psv: Seq<u32>, arr: Seq<i32>) -> bool {
    &&& psv.len() == arr.len()
    &&& forall|i: int| 0 <= i < arr.len() ==> #[trigger] psv_at(psv, arr, i)
}

/// `nsv[i]` is the nearest index after `i` with a smaller value, or
/// `INVALID_VALUE` where every value after `i` is at least `arr[i]`.
pub open spec fn nsv_at(nsv: Seq<u32>, arr: Seq<i32>, i: int) -> bool {
    if nsv[i] == INVALID_VALUE {
        forall|j: int| i < j < arr.len() ==> #[trigger] arr[j] >= arr[i]
    } else {
        &&& i < nsv[i] < arr.len()
        &&& arr[nsv[i] as int] < arr[i]
        &&& forall|j: int| i < j < nsv[i] ==> #[trigger] arr[j] >= arr[i]
    }
}

/// `nsv` holds the next smaller value of every index of `arr`.
pub open spec fn is_nsv_of(nsv: Seq<u32>, arr: Seq<i32>) -> bool {
    &&& nsv.len() == arr.len()
    &&& forall|i: int| 0 <= i < arr.len() ==> #[trigger] nsv_at(nsv, arr, i)
}

/// Previous smaller values. An index that is not the answer for `i` hands
/// the search on to its own answer, so every index between the two is known
/// to hold a value that is too large.
pub fn compute_psv(arr: &[i32]) -> (psv: Vec<u32>)
    requires
        0 < arr.len() <= u32::MAX,
    ensures
        is_psv_of(psv@, arr@),
{
    let n = arr.len();
    let mut psv: Vec<u32> = vec![0; n];
    psv[0] = INVALID_VALUE;
    let mut i: usize = 1;
    while i < n
        invariant
            n == arr.len(),
            n <= u32::MAX,
            psv.len() == n,
            1 <= i <= n,
            forall|k: int| 0 <= k < i ==> #[trigger] psv_at(psv@, arr@, k),
        decreases n - i,
    {
        let mut p: usize = i - 1;
        let ghost earlier = psv@;
        psv[i] = INVALID_VALUE;
        let ghost before = psv@;
        proof {
            assert forall|k: int| 0 <= k < i implies #[trigger] psv_at(before, arr@, k) by {
                assert(psv_at(earlier, arr@, k));
            }
        }
        while p != INVALID_VALUE as usize
            invariant_except_break
                psv@ == before,
                p == INVALID_VALUE as usize || p < i,
                forall|j: int|
                    (if p == INVALID_VALUE as usize {
                        0
                    } else {
                        p + 1
                    }) <= j < i ==> #[trigger] arr[j] >= arr[i as int],
            invariant
                n == arr.len(),
                n <= u32::MAX,
                psv.len() == n,
                1 <= i < n,
                before.len() == n,
                before[i as int] == INVALID_VALUE,
                forall|k: int| 0 <= k < i ==> #[trigger] psv_at(before, arr@, k),
                forall|k: int| 0 <= k < n && k != i ==> psv[k] == before[k],
            ensures
                psv_at(psv@, arr@, i as int),
            decreases
                    (if p == INVALID_VALUE as usize {
                        0
                    } else {
                        p + 1
                    }),
        {
            if arr[p] < arr[i] {
                psv[i] = p as u32;
                break ;
            }
            proof {
                assert(psv_at(before, arr@, p as int));
            }
            p = psv[p] as usize;
        }
        proof {
            assert forall|k: int| 0 <= k < i + 1 implies #[trigger] psv_at(psv@, arr@, k) by {
                if k < i {
                    assert(psv_at(before, arr@, k));
                }
            }
        }
        i += 1;
    }
    psv
}

/// Next smaller values, found from right to left in the same way.
pub fn compute_nsv(arr: &[i32]) -> (nsv: Vec<u32>)
    requires
        0 < arr.len() <= u32::MAX,
    ensures
        is_nsv_of(nsv@, arr@),
{
    let n = arr.len();
    let mut nsv: Vec<u32> = vec![0; n];
    nsv[n - 1] = INVALID_VALUE;
    let mut i: usize = n - 1;
    while i > 0
        invariant
            n == arr.len(),
            n <= u32::MAX,
            nsv.len() == n,
            i < n,
            forall|k: int| i <= k < n ==> #[trigger] nsv_at(nsv@, arr@, k),
        decreases i,
    {
        i -= 1;
        let mut p: usize = i + 1;
        let ghost earlier = nsv@;
        nsv[i] = INVALID_VALUE;
        let ghost before = nsv@;
        proof {
            assert forall|k: int| i < k < n implies #[trigger] nsv_at(before, arr@, k) by {
                assert(nsv_at(earlier, arr@, k));
            }
        }
        while p != INVALID_VALUE as usize
            invariant_except_break
                nsv@ == before,
                p == INVALID_VALUE as usize || i < p < n,
                forall|j: int|
                    i < j < (if p == INVALID_VALUE as usize {
                        n
                    } else {
                        p
                    }) ==> #[trigger] arr[j] >= arr[i as int],
            invariant
                n == arr.len(),
                n <= u32::MAX,
                nsv.len() == n,
                i < n - 1,
                before.len() == n,
                before[i as int] == INVALID_VALUE,
                forall|k: int| i < k < n ==> #[trigger] nsv_at(before, arr@, k),
                forall|k: int| 0 <= k < n && k != i ==> nsv[k] == before[k],
            ensures
                nsv_at(nsv@, arr@, i as int),
            decreases
                    (if p == INVALID_VALUE as usize {
                        0
                    } else {
                        n - p
                    }),
        {
            if arr[p] < arr[i] {
                nsv[i] = p as u32;
                break ;
            }
            proof {
                assert(nsv_at(before, arr@, p as int));
            }
            p = nsv[p] as usize;
        }
        proof {
            assert forall|k: int| i <= k < n implies #[trigger] nsv_at(nsv@, arr@, k) by {
                if k > i {
                    assert(nsv_at(before, arr@, k));
                }
            }
        }
    }
    nsv
}

/// A sequence has one array of previous smaller values only.
pub proof fn lemma_psv_unique(arr: Seq<i32>, first: Seq<u32>, second: Seq<u32>)
    requires
        arr.len() <= u32::MAX,
        is_psv_of(first, arr),
        is_psv_of(second, arr),
    ensures
        first == second,
{
    assert forall|i: int| 0 <= i < arr.len() implies first[i] == second[i] by {
        assert(psv_at(first, arr, i));
        assert(psv_at(second, arr, i));
    }
    assert(first =~= second);
}

/// A sequence has one array of next smaller values only.
pub proof fn lemma_nsv_unique(arr: Seq<i32>, first: Seq<u32>, second: Seq<u32>)
    requires
        arr.len() <= u32::MAX,
        is_nsv_of(first, arr),
        is_nsv_of(second, arr),
    ensures
        first == second,
{
    assert forall|i: int| 0 <= i < arr.len() implies first[i] == second[i] by {
        assert(nsv_at(first, arr, i));
        assert(nsv_at(second, arr, i));
    }
    assert(first =~= second);
}

} // verus!
