//! Run-length codes of byte strings.

use vstd::prelude::*;

verus! {

/// The length of the run of equal bytes that ends with the byte before `k`.
pub open spec fn open_run_len(s: Seq<u8>, k: int) -> int
    decreases k,
{
    if k <= 0 {
        0
    } else if k == 1 || s[k - 1] != s[k - 2] {
        1
    } else {
        open_run_len(s, k - 1) + 1
    }
}

/// The runs of the first `k` bytes but the last run, each as its byte and
/// its length.
pub open spec fn closed_runs(s: Seq<u8>, k: int) -> Seq<(u8, usize)>
    decreases k,
{
    if k <= 1 {
        Seq::empty()
    } else if s[k - 1] != s[k - 2] {
        closed_runs(s, k - 1).push((s[k - 2], open_run_len(s, k - 1) as usize))
    } else {
        closed_runs(s, k - 1)
    }
}

/// The maximal runs of equal bytes of `s`, each as its byte and its length.
pub open spec fn runs_of(s: Seq<u8>) -> Seq<(u8, usize)> {
    if s.len() == 0 {
        Seq::empty()
    } else {
        closed_runs(s, s.len() as int).push(
            (s[s.len() - 1], open_run_len(s, s.len() as int) as usize),
        )
    }
}

/// Every run for two bytes: the byte, and how often it is repeated, which is
/// one less than the length of the run, cut to one byte.
pub open spec fn run_bytes(runs: Seq<(u8, usize)>) -> Seq<u8>
    decreases runs.len(),
{
    if runs.len() == 0 {
        Seq::empty()
    } else {
        run_bytes(runs.drop_last()).push(runs.last().0).push((runs.last().1 - 1) as u8)
    }
}

/// No run but the last is longer than 255 bytes.
pub open spec fn has_short_runs(s: Seq<u8>) -> bool {
    forall|k: int| 2 <= k <= s.len() && s[k - 1] != s[k - 2] ==> #[trigger] open_run_len(s, k - 1) <= 255
}

/// The maximal runs of equal bytes of `input`, each as its byte and its
/// length.
pub fn rle_text(input: &[u8]) -> (runs: Vec<(u8, usize)>)
    ensures
        runs@ == runs_of(input@),
{
    let mut runs: Vec<(u8, usize)> = Vec::new();
    if input.len() == 0 {
        return runs;
    }
    let mut run_counter: usize = 0;
    let mut prev_char = input[0];
    let mut k: usize = 1;
    while k < input.len()
        invariant
            1 <= k <= input.len(),
            prev_char == input[k - 1],
            run_counter + 1 == open_run_len(input@, k as int),
            run_counter < k,
            runs@ == closed_runs(input@, k as int),
        decreases input.len() - k,
    {
        let next_char = input[k];
        if next_char != prev_char {
            runs.push((prev_char, run_counter + 1));
            prev_char = next_char;
            run_counter = 0;
        } else {
            run_counter += 1;
        }
        k += 1;
    }
    runs.push((prev_char, run_counter + 1));
    runs
}

/// The run-length code of `input`: for every maximal run of equal bytes the
/// byte, and in a second byte the number of times it is repeated.
pub fn rle(input: &[u8]) -> (code: Vec<u8>)
    requires
        has_short_runs(input@),
    ensures
        code@ == run_bytes(runs_of(input@)),
{
    let mut code: Vec<u8> = Vec::new();
    if input.len() == 0 {
        return code;
    }
    let mut run_counter: usize = 0;
    let mut prev_char = input[0];
    let mut k: usize = 1;
    while k < input.len()
        invariant
            1 <= k <= input.len(),
            has_short_runs(input@),
            prev_char == input[k - 1],
            run_counter + 1 == open_run_len(input@, k as int),
            run_counter < k,
            code@ == run_bytes(closed_runs(input@, k as int)),
        decreases input.len() - k,
    {
        let next_char = input[k];
        if next_char != prev_char {
            proof {
                assert(open_run_len(input@, (k + 1) - 1) <= 255);
                let closed = closed_runs(input@, k + 1);
                assert(closed.drop_last() =~= closed_runs(input@, k as int));
            }
            code.push(prev_char);
            code.push(run_counter as u8);
            prev_char = next_char;
            run_counter = 0;
        } else {
            run_counter += 1;
        }
        k += 1;
    }
    proof {
        let all = runs_of(input@);
        assert(all.drop_last() =~= closed_runs(input@, input.len() as int));
    }
    code.push(prev_char);
    code.push(#[verifier::truncate] (run_counter as u8));
    code
}

/// The digit `0`, the only byte whose runs `rle_zero` codes.
pub const CHR_ZERO: u8 = 0x30;

/// What `rle_zero` has written, and the number of zeros it is holding back,
/// after the first `k` bytes of `s`.
pub open spec fn zero_code(s: Seq<u8>, k: int) -> (Seq<u8>, int)
    decreases k,
{
    if k <= 0 {
        (Seq::empty(), 0)
    } else if k == 1 {
        if s[0] == CHR_ZERO {
            (Seq::empty(), 1)
        } else {
            (seq![s[0]], 0)
        }
    } else {
        let (written, held) = zero_code(s, k - 1);
        if s[k - 1] == CHR_ZERO {
            (written, held + 1)
        } else if held == 0 {
            (written.push(s[k - 1]), 0)
        } else {
            (written.push(CHR_ZERO).push((held - 1) as u8), 0)
        }
    }
}

/// The code that `rle_zero` gives for `s`.
pub open spec fn zero_code_of(s: Seq<u8>) -> Seq<u8> {
    let (written, held) = zero_code(s, s.len() as int);
    if held > 0 {
        written.push(CHR_ZERO).push(held as u8)
    } else {
        written
    }
}

/// No run of zeros that another byte follows is longer than 255.
pub open spec fn has_short_zero_runs(s: Seq<u8>) -> bool {
    forall|k: int| 1 <= k < s.len() && s[k] != CHR_ZERO ==> (#[trigger] zero_code(s, k)).1 <= 255
}

/// A run-length code for the digit `0` alone. Other bytes are copied. A run
/// of zeros that another byte ends is written as a `0` and the number of
/// zeros after the first, and the byte that ends it is not written; a run at
/// the end of the input is written as a `0` and its length, cut to one byte.
pub fn rle_zero(input: &[u8]) -> (code: Vec<u8>)
    requires
        has_short_zero_runs(input@),
    ensures
        code@ == zero_code_of(input@),
{
    let mut code: Vec<u8> = Vec::new();
    if input.len() == 0 {
        return code;
    }
    let first_char = input[0];
    let mut run_counter: usize = 0;
    if first_char == CHR_ZERO {
        run_counter = 1;
    } else {
        code.push(first_char);
    }
    assert(code@ =~= zero_code(input@, 1).0);
    let mut k: usize = 1;
    while k < input.len()
        invariant
            1 <= k <= input.len(),
            has_short_zero_runs(input@),
            run_counter <= k,
            (code@, run_counter as int) == zero_code(input@, k as int),
        decreases input.len() - k,
    {
        let next_char = input[k];
        if next_char != CHR_ZERO {
            if run_counter == 0 {
                code.push(next_char);
            } else {
                assert(zero_code(input@, k as int).1 <= 255);
                code.push(CHR_ZERO);
                code.push((run_counter - 1) as u8);
                run_counter = 0;
            }
        } else {
            run_counter += 1;
        }
        k += 1;
    }
    if run_counter > 0 {
        code.push(CHR_ZERO);
        code.push(#[verifier::truncate] (run_counter as u8));
    }
    code
}

} // verus!
