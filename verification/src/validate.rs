//! Checks of what callers hand in: texts, suffix arrays, and positions. What
//! the other modules demand of their inputs can be tested here.

use crate::attractor::{is_attractor, is_string_attractor, marks_of, uncovered_of};
use crate::lz77::{decode_spec, is_decodable, lz77_factorize, LZFactor};
use crate::naive_sort::{compare_suffixes, suffix_before};
use crate::text::{
    has_value, is_permutation, is_sentinel_terminated, is_suffix_array, lemma_suffix_lt_transitive,
    ranked_before,
};
use std::cmp::Ordering;
use vstd::prelude::*;

verus! {

/// Why an input is turned down.
#[derive(Debug, Clone, Copy, PartialEq, Eq, Structural)]
pub enum InputError {
    /// The text has no bytes.
    EmptyText,
    /// The text has `i32::MAX` bytes or more.
    TooLong,
    /// The last byte of the text is not smaller than all others.
    NotSentinelTerminated,
    /// The last byte of the text is not 0.
    SentinelNotZero,
    /// The array is not a permutation of its indices.
    NotAPermutation,
    /// A position lies behind the end of the text.
    PositionOutOfRange,
}

/// What `check_text` answers for a text.
pub open spec fn text_verdict(t: Seq<u8>) -> Result<(), InputError> {
    if t.len() == 0 {
        Err(InputError::EmptyText)
    } else if t.len() >= i32::MAX {
        Err(InputError::TooLong)
    } else if !is_sentinel_terminated(t) {
        Err(InputError::NotSentinelTerminated)
    } else {
        Ok(())
    }
}

/// Whether `text` is a text as the index structures want it: not empty,
/// shorter than `i32::MAX`, and with a last byte below all others.
pub fn check_text(text: &[u8]) -> (verdict: Result<(), InputError>)
    ensures
        verdict == text_verdict(text@),
{
    let n = text.len();
    if n == 0 {
        return Err(InputError::EmptyText);
    }
    if n >= i32::MAX as usize {
        return Err(InputError::TooLong);
    }
    let sentinel = text[n - 1];
    let mut i: usize = 0;
    while i < n - 1
        invariant
            n == text.len(),
            0 < n < i32::MAX,
            sentinel == text[n - 1],
            i <= n - 1,
            forall|k: int| 0 <= k < i ==> sentinel < #[trigger] text[k],
        decreases n - i,
    {
        if text[i] <= sentinel {
            assert(!(text@[text@.len() - 1] < text@[i as int]));
            return Err(InputError::NotSentinelTerminated);
        }
        i += 1;
    }
    Ok(())
}

/// Whether `arr` holds every index once.
pub fn check_permutation(arr: &[i32]) -> (verdict: Result<(), InputError>)
    ensures
        is_permutation(arr@) ==> verdict == Ok::<(), InputError>(()),
        !is_permutation(arr@) ==> verdict == Err::<(), InputError>(InputError::NotAPermutation),
{
    let n = arr.len();
    let mut seen: Vec<bool> = vec![false; n];
    let mut i: usize = 0;
    while i < n
        invariant
            n == arr.len(),
            seen.len() == n,
            i <= n,
            forall|k: int| 0 <= k < i ==> 0 <= #[trigger] arr[k] < n,
            forall|k: int, m: int| 0 <= k < m < i ==> #[trigger] arr[k] != #[trigger] arr[m],
            forall|p: int| 0 <= p < n ==> (#[trigger] seen[p] <==> exists|k: int| 0 <= k < i && #[trigger] arr[k] == p),
        decreases n - i,
    {
        let value = arr[i];
        if value < 0 || value as usize >= n {
            return Err(InputError::NotAPermutation);
        }
        if seen[value as usize] {
            proof {
                let k = choose|k: int| 0 <= k < i && #[trigger] arr[k] == value;
                assert(arr[k] == arr[i as int]);
            }
            return Err(InputError::NotAPermutation);
        }
        let ghost before = seen@;
        seen[value as usize] = true;
        proof {
            assert forall|p: int| 0 <= p < n implies (#[trigger] seen[p] <==> exists|k: int|
                0 <= k < i + 1 && #[trigger] arr[k] == p) by {
                if p == value {
                    assert(arr[i as int] == p);
                } else {
                    if before[p] {
                        let k = choose|k: int| 0 <= k < i && #[trigger] arr[k] == p;
                        assert(arr[k] == p);
                    }
                    if exists|k: int| 0 <= k < i + 1 && #[trigger] arr[k] == p {
                        let k = choose|k: int| 0 <= k < i + 1 && #[trigger] arr[k] == p;
                        assert(k < i);
                    }
                }
            }
        }
        i += 1;
    }
    let mut p: usize = 0;
    while p < n
        invariant
            n == arr.len(),
            seen.len() == n,
            p <= n,
            forall|k: int| 0 <= k < n ==> 0 <= #[trigger] arr[k] < n,
            forall|k: int, m: int| 0 <= k < m < n ==> #[trigger] arr[k] != #[trigger] arr[m],
            forall|q: int| 0 <= q < n ==> (#[trigger] seen[q] <==> exists|k: int| 0 <= k < n && #[trigger] arr[k] == q),
            forall|q: int| 0 <= q < p ==> #[trigger] has_value(arr@, q),
        decreases n - p,
    {
        if !seen[p] {
            assert(!has_value(arr@, p as int));
            return Err(InputError::NotAPermutation);
        }
        proof {
            let k = choose|k: int| 0 <= k < n && #[trigger] arr[k] == p;
            assert(arr@[k] == p);
        }
        p += 1;
    }
    Ok(())
}

fn position_of(value: i32) -> (position: usize)
    requires
        value >= 0,
    ensures
        position == value,
{
    value as usize
}

fn suffix_smaller(text: &[u8], a: usize, b: usize) -> (smaller: bool)
    requires
        a <= text.len(),
        b <= text.len(),
    ensures
        smaller == suffix_before(text@, a, b),
{
    match compare_suffixes(text, a, b) {
        Ordering::Less => true,
        _ => false,
    }
}

/// Suffixes that are in order pair by pair are in order altogether.
proof fn lemma_sorted_pairs(t: Seq<u8>, sa: Seq<i32>, i: int, j: int)
    requires
        sa.len() == t.len(),
        forall|k: int| 0 <= k < sa.len() ==> 0 <= #[trigger] sa[k] < sa.len(),
        forall|k: int| 1 <= k <= j ==> #[trigger] ranked_before(t, sa, k - 1, k),
        0 <= i < j < sa.len(),
    ensures
        ranked_before(t, sa, i, j),
    decreases j - i,
{
    if i + 1 < j {
        lemma_sorted_pairs(t, sa, i, j - 1);
        assert(ranked_before(t, sa, j - 1, j));
        lemma_suffix_lt_transitive(t, sa[i] as int, sa[j - 1] as int, sa[j] as int);
    } else {
        assert(ranked_before(t, sa, j - 1, j));
    }
}

/// Whether `sa` is the suffix array of `text`, found out by comparing every
/// suffix with the next one byte by byte.
pub fn check_suffix_array(text: &[u8], sa: &[i32]) -> (valid: bool)
    ensures
        valid == is_suffix_array(text@, sa@),
{
    if sa.len() != text.len() {
        return false;
    }
    match check_permutation(sa) {
        Err(_) => {
            return false;
        },
        Ok(_) => {},
    }
    let n = sa.len();
    let mut i: usize = 1;
    while i < n
        invariant
            n == sa.len(),
            n == text.len(),
            is_permutation(sa@),
            1 <= i <= n || n == 0,
            forall|k: int| 1 <= k < i ==> #[trigger] ranked_before(text@, sa@, k - 1, k),
        decreases n - i,
    {
        let a = position_of(sa[i - 1]);
        let b = position_of(sa[i]);
        if !suffix_smaller(text, a, b) {
            assert(!ranked_before(text@, sa@, i - 1, i as int));
            return false;
        }
        i += 1;
    }
    proof {
        assert forall|x: int, y: int| 0 <= x < y < sa.len() implies #[trigger] ranked_before(
            text@,
            sa@,
            x,
            y,
        ) by {
            lemma_sorted_pairs(text@, sa@, x, y);
        }
    }
    true
}

/// Whether every position lies inside a text of `n` bytes.
pub fn check_positions(positions: &[u64], n: usize) -> (verdict: Result<(), InputError>)
    ensures
        (forall|k: int| 0 <= k < positions.len() ==> #[trigger] positions[k] < n) ==> verdict == Ok::<
            (),
            InputError,
        >(()),
        !(forall|k: int| 0 <= k < positions.len() ==> #[trigger] positions[k] < n) ==> verdict
            == Err::<(), InputError>(InputError::PositionOutOfRange),
{
    let mut k: usize = 0;
    while k < positions.len()
        invariant
            k <= positions.len(),
            forall|j: int| 0 <= j < k ==> #[trigger] positions[j] < n,
        decreases positions.len() - k,
    {
        if positions[k] >= n as u64 {
            return Err(InputError::PositionOutOfRange);
        }
        k += 1;
    }
    Ok(())
}

/// The text is too long for the index structures of this machine.
pub open spec fn is_too_long(t: Seq<u8>) -> bool {
    t.len() >= i32::MAX || t.len() > usize::MAX / 16
}

/// What `verify_attractor` turns down, and why.
pub open spec fn attractor_verdict(t: Seq<u8>, positions: Seq<u64>) -> Result<(), InputError> {
    if t.len() == 0 {
        Err(InputError::EmptyText)
    } else if is_too_long(t) {
        Err(InputError::TooLong)
    } else if !is_sentinel_terminated(t) {
        Err(InputError::NotSentinelTerminated)
    } else if t[t.len() - 1] != 0 {
        Err(InputError::SentinelNotZero)
    } else if !(forall|k: int| 0 <= k < positions.len() ==> #[trigger] positions[k] < t.len()) {
        Err(InputError::PositionOutOfRange)
    } else {
        Ok(())
    }
}

/// Whether `attractor` is a string attractor of `text`, with the inputs
/// checked first: an input that `is_attractor` does not admit is turned down
/// with the reason.
pub fn verify_attractor(text: &[u8], attractor: &[u64]) -> (verdict: Result<bool, InputError>)
    ensures
        match verdict {
            Ok(valid) => attractor_verdict(text@, attractor@) is Ok && (exists|
                found: Seq<(usize, usize)>,
            | #[trigger]
                uncovered_of(text@, marks_of(attractor@, text.len() as nat), found) && valid == (
                found.len() == 0)) && (text.len() >= 2 ==> valid == is_string_attractor(
                text@,
                marks_of(attractor@, text.len() as nat),
            )),
            Err(reason) => attractor_verdict(text@, attractor@) == Err::<(), InputError>(reason),
        },
{
    if text.len() > 0 && text.len() > usize::MAX / 16 {
        return Err(InputError::TooLong);
    }
    match check_text(text) {
        Err(reason) => {
            return Err(reason);
        },
        Ok(_) => {},
    }
    if text[text.len() - 1] != 0 {
        return Err(InputError::SentinelNotZero);
    }
    match check_positions(attractor, text.len()) {
        Err(reason) => {
            return Err(reason);
        },
        Ok(_) => {},
    }
    Ok(is_attractor(text, attractor))
}

/// The LZ77 factorization of `text`, with the text checked first: a text
/// that is empty or too long is turned down.
pub fn factorize(text: &[u8]) -> (verdict: Result<Vec<LZFactor>, InputError>)
    ensures
        match verdict {
            Ok(factors) => text.len() > 0 && !is_too_long(text@) && is_decodable(factors@)
                && decode_spec(factors@) == text@,
            Err(reason) => if text.len() == 0 {
                reason == InputError::EmptyText
            } else {
                reason == InputError::TooLong && is_too_long(text@)
            },
        },
{
    if text.len() == 0 {
        return Err(InputError::EmptyText);
    }
    if text.len() >= i32::MAX as usize || text.len() > usize::MAX / 16 {
        return Err(InputError::TooLong);
    }
    Ok(lz77_factorize(text))
}

} // verus!
