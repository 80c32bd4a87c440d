//! Small transforms on byte strings: runs, distinct bytes, move-to-front.

use vstd::prelude::*;

verus! {

/// The number of maximal runs of equal bytes among the first `k` bytes.
pub open spec fn runs_upto(s: Seq<u8>, k: int) -> nat
    decreases k,
{
    if k <= 0 {
        0
    } else if k == 1 || s[k - 1] != s[k - 2] {
        runs_upto(s, k - 1) + 1
    } else {
        runs_upto(s, k - 1)
    }
}

/// Counts the maximal runs of equal bytes in `text`.
pub fn number_of_runs(text: &[u8]) -> (runs: usize)
    ensures
        runs == runs_upto(text@, text.len() as int),
{
    if text.len() == 0 {
        return 0;
    }
    let mut run_counter: usize = 1;
    let mut prev_char = text[0];
    assert(runs_upto(text@, 1) == 1) by {
        assert(runs_upto(text@, 0) == 0);
    }
    let mut i: usize = 1;
    while i < text.len()
        invariant
            1 <= i <= text.len(),
            prev_char == text[i - 1],
            run_counter == runs_upto(text@, i as int),
            run_counter <= i,
        decreases text.len() - i,
    {
        let next_char = text[i];
        if next_char != prev_char {
            prev_char = next_char;
            run_counter += 1;
        }
        i += 1;
    }
    run_counter
}

/// The byte at `i` does not occur before `i`.
pub open spec fn is_first_occurrence(s: Seq<u8>, i: int) -> bool {
    forall|j: int| 0 <= j < i ==> #[trigger] s[j] != s[i]
}

/// The number of different bytes among the first `k`.
pub open spec fn distinct_upto(s: Seq<u8>, k: int) -> nat
    decreases k,
{
    if k <= 0 {
        0
    } else if is_first_occurrence(s, k - 1) {
        distinct_upto(s, k - 1) + 1
    } else {
        distinct_upto(s, k - 1)
    }
}

/// The byte `b` occurs among the first `k` bytes.
pub open spec fn occurs_before(s: Seq<u8>, b: u8, k: int) -> bool {
    exists|j: int| 0 <= j < k && #[trigger] s[j] == b
}

/// Counts the different bytes of `text`. The count is returned in a byte, so
/// there may be 255 of them at most.
pub fn count_sigma(text: &[u8]) -> (sigma: u8)
    requires
        distinct_upto(text@, text.len() as int) <= 255,
    ensures
        sigma == distinct_upto(text@, text.len() as int),
{
    let mut inc: u8 = 0;
    let mut alphabet_to_reduced: Vec<u8> = vec![0; 256];
    let mut k: usize = 0;
    while k < text.len()
        invariant
            k <= text.len(),
            alphabet_to_reduced.len() == 256,
            inc == distinct_upto(text@, k as int),
            distinct_upto(text@, k as int) <= distinct_upto(text@, text.len() as int) <= 255,
            forall|b: u8| (#[trigger] alphabet_to_reduced[b as int] != 0) == occurs_before(text@, b, k as int),
        decreases text.len() - k,
    {
        let index = text[k] as usize;
        let ghost table = alphabet_to_reduced@;
        proof {
            lemma_distinct_monotone(text@, k + 1, text.len() as int);
            if occurs_before(text@, text[k as int], k as int) {
                let j = choose|j: int| 0 <= j < k && #[trigger] text[j] == text[k as int];
                assert(!is_first_occurrence(text@, k as int));
            }
        }
        if alphabet_to_reduced[index] == 0 {
            inc += 1;
            alphabet_to_reduced[index] = inc;
        }
        proof {
            assert forall|b: u8| (#[trigger] alphabet_to_reduced[b as int] != 0) == occurs_before(
                text@,
                b,
                k + 1,
            ) by {
                if b == text[k as int] {
                    assert(text[k as int] == b);
                } else {
                    assert(alphabet_to_reduced[b as int] == table[b as int]);
                    if occurs_before(text@, b, k as int) {
                        let j = choose|j: int| 0 <= j < k && #[trigger] text[j] == b;
                        assert(text[j] == b);
                    }
                    if occurs_before(text@, b, k + 1) {
                        let j = choose|j: int| 0 <= j < k + 1 && #[trigger] text[j] == b;
                        assert(j < k);
                    }
                }
            }
        }
        k += 1;
    }
    inc
}

/// Counting further never counts less.
pub proof fn lemma_distinct_monotone(s: Seq<u8>, a: int, b: int)
    requires
        a <= b,
    ensures
        distinct_upto(s, a) <= distinct_upto(s, b),
    decreases b - a,
{
    if a < b {
        lemma_distinct_monotone(s, a, b - 1);
    }
}

/// The index of the byte `c` in `table`.
pub open spec fn position_of(table: Seq<u8>, c: u8) -> int {
    choose|i: int| 0 <= i < table.len() && table[i] == c
}

/// `table` with the byte `c` moved to the front.
pub open spec fn moved_to_front(table: Seq<u8>, c: u8) -> Seq<u8> {
    seq![c] + table.remove(position_of(table, c))
}

/// The table before the byte `k` of `input` is coded: the bytes 0 to 254 in
/// order, each byte coded so far moved to the front in turn.
pub open spec fn mtf_table(input: Seq<u8>, k: int) -> Seq<u8>
    decreases k,
{
    if k <= 0 {
        Seq::new(255, |i: int| i as u8)
    } else {
        moved_to_front(mtf_table(input, k - 1), input[k - 1])
    }
}

/// The move-to-front code of `input`: for every byte its index in the table.
pub open spec fn mtf_code(input: Seq<u8>) -> Seq<u8> {
    Seq::new(input.len(), |k: int| position_of(mtf_table(input, k), input[k]) as u8)
}

/// The table holds every byte below 255 once.
pub open spec fn is_mtf_table(table: Seq<u8>) -> bool {
    &&& table.len() == 255
    &&& forall|i: int, j: int| 0 <= i < j < 255 ==> #[trigger] table[i] != #[trigger] table[j]
    &&& forall|c: u8| c < 255 ==> #[trigger] table.contains(c)
}

/// Appends to `output` the move-to-front code of `input`. The table starts
/// with the bytes 0 to 254, so the byte 255 cannot be coded.
pub fn mtf(input: &[u8], output: &mut Vec<u8>)
    requires
        forall|k: int| 0 <= k < input.len() ==> #[trigger] input[k] != 255,
    ensures
        final(output)@ == old(output)@ + mtf_code(input@),
{
    let mut mtfvector: Vec<u8> = Vec::new();
    let mut b: u8 = 0;
    while b < 255
        invariant
            mtfvector.len() == b,
            forall|i: int| 0 <= i < b ==> #[trigger] mtfvector[i] == i,
        decreases 255 - b,
    {
        mtfvector.push(b);
        b += 1;
    }
    assert(mtfvector@ =~= mtf_table(input@, 0));
    proof {
        assert forall|c: u8| c < 255 implies #[trigger] mtfvector@.contains(c) by {
            assert(mtfvector@[c as int] == c);
        }
    }
    let ghost start = output@;
    let mut k: usize = 0;
    while k < input.len()
        invariant
            k <= input.len(),
            forall|k: int| 0 <= k < input.len() ==> #[trigger] input[k] != 255,
            mtfvector@ == mtf_table(input@, k as int),
            is_mtf_table(mtfvector@),
            output@ == start + mtf_code(input@).take(k as int),
        decreases input.len() - k,
    {
        let cur_char = input[k];
        let ghost table = mtfvector@;
        proof {
            assert(table.contains(cur_char));
        }
        let ghost at = position_of(table, cur_char);
        let mut pos: usize = 0;
        while mtfvector[pos] != cur_char
            invariant
                mtfvector@ == table,
                is_mtf_table(table),
                0 <= at < 255,
                table[at] == cur_char,
                pos <= at,
            decreases at - pos,
        {
            pos += 1;
        }
        assert(pos == at);
        let mut j: usize = 0;
        while j < pos
            invariant
                j <= pos,
                pos < 255,
                mtfvector.len() == 255,
                table.len() == 255,
                forall|i: int| 0 <= i <= pos - j ==> #[trigger] mtfvector[i] == table[i],
                forall|i: int| pos - j < i <= pos ==> #[trigger] mtfvector[i] == table[i - 1],
                forall|i: int| pos < i < 255 ==> #[trigger] mtfvector[i] == table[i],
            decreases pos - j,
        {
            let moved = mtfvector[pos - j - 1];
            mtfvector[pos - j] = moved;
            j += 1;
        }
        mtfvector[0] = cur_char;
        proof {
            let now = mtfvector@;
            assert(now =~= moved_to_front(table, cur_char));
            assert forall|x: int, y: int| 0 <= x < y < 255 implies #[trigger] now[x] != #[trigger] now[y] by {
                let px = if x == 0 { pos as int } else if x <= pos { x - 1 } else { x };
                let py = if y <= pos { y - 1 } else { y };
                assert(now[x] == table[px]);
                assert(now[y] == table[py]);
                if px < py {
                    assert(table[px] != table[py]);
                } else {
                    assert(table[py] != table[px]);
                }
            }
            assert forall|c: u8| c < 255 implies #[trigger] now.contains(c) by {
                assert(table.contains(c));
                let i = choose|i: int| 0 <= i < table.len() && table[i] == c;
                if i == pos {
                    assert(now[0] == c);
                } else if i < pos {
                    assert(now[i + 1] == c);
                } else {
                    assert(now[i] == c);
                }
            }
        }
        output.push(pos as u8);
        proof {
            assert(output@ =~= start + mtf_code(input@).take(k + 1));
        }
        k += 1;
    }
    assert(mtf_code(input@).take(k as int) =~= mtf_code(input@));
}

/// The move-to-front code of `input`.
pub fn mtf_vector(input: &[u8]) -> (output: Vec<u8>)
    requires
        forall|k: int| 0 <= k < input.len() ==> #[trigger] input[k] != 255,
    ensures
        output@ == mtf_code(input@),
{
    let mut output: Vec<u8> = Vec::new();
    mtf(input, &mut output);
    assert(output@ =~= mtf_code(input@));
    output
}

} // verus!
