//! Enumerating all words of a given length over the first letters of the
//! alphabet.

use vstd::prelude::*;

verus! {

/// Every digit from `p` on is the largest one.
pub open spec fn is_full_from(indices: Seq<usize>, alpha_size: int, p: int) -> bool {
    forall|i: int| p <= i < indices.len() ==> #[trigger] indices[i] + 1 >= alpha_size
}

/// `next` counts one further than `indices`: the last digit that is not the
/// largest goes up by one, the digits behind it become 0, and the digits
/// before it stay.
pub open spec fn is_successor(indices: Seq<usize>, next: Seq<usize>, alpha_size: int, p: int) -> bool {
    &&& 0 <= p < indices.len()
    &&& next.len() == indices.len()
    &&& indices[p] + 1 < alpha_size
    &&& is_full_from(indices, alpha_size, p + 1)
    &&& next[p] == indices[p] + 1
    &&& forall|i: int| 0 <= i < p ==> #[trigger] next[i] == indices[i]
    &&& forall|i: int| p < i < indices.len() ==> #[trigger] next[i] == 0
}

/// Counts one further in the given base, with the lowest digit at the end.
/// Returns whether there was a number to go to; where there was none, all
/// digits are 0 again.
pub fn next_indices(indices: &mut Vec<usize>, alpha_size: usize) -> (more: bool)
    ensures
        final(indices)@.len() == old(indices)@.len(),
        more ==> exists|p: int| #[trigger] is_successor(old(indices)@, final(indices)@, alpha_size as int, p),
        !more ==> is_full_from(old(indices)@, alpha_size as int, 0) && forall|i: int|
            0 <= i < final(indices)@.len() ==> #[trigger] final(indices)@[i] == 0,
{
    let ghost start = indices@;
    let mut pos: usize = indices.len();
    while pos > 0
        invariant
            pos <= indices.len(),
            start == old(indices)@,
            indices.len() == start.len(),
            is_full_from(start, alpha_size as int, pos as int),
            forall|i: int| 0 <= i < pos ==> #[trigger] indices[i] == start[i],
            forall|i: int| pos <= i < indices.len() ==> #[trigger] indices[i] == 0,
        decreases pos,
    {
        let digit = indices[pos - 1];
        if digit < usize::MAX && digit + 1 < alpha_size {
            indices[pos - 1] = digit + 1;
            assert(is_successor(start, indices@, alpha_size as int, pos - 1));
            return true;
        } else {
            indices[pos - 1] = 0;
            pos -= 1;
        }
    }
    false
}

/// The word that a list of digits stands for: `a` for 0, `b` for 1, and so
/// on.
pub open spec fn letters_of(indices: Seq<usize>) -> Seq<u8> {
    Seq::new(indices.len(), |i: int| (0x61 + indices[i]) as u8)
}

/// Writes a list of digits with the letters `a`, `b`, ..
pub fn word_of_indices(indices: &[usize]) -> (word: Vec<u8>)
    requires
        forall|i: int| 0 <= i < indices.len() ==> 0x61 + #[trigger] indices[i] <= 255,
    ensures
        word@ == letters_of(indices@),
{
    let mut word: Vec<u8> = Vec::new();
    let mut k: usize = 0;
    while k < indices.len()
        invariant
            k <= indices.len(),
            word.len() == k,
            forall|i: int| 0 <= i < indices.len() ==> 0x61 + #[trigger] indices[i] <= 255,
            forall|i: int| 0 <= i < k ==> #[trigger] word[i] == (0x61 + indices[i]) as u8,
        decreases indices.len() - k,
    {
        word.push(0x61u8 + (indices[k] as u8));
        k += 1;
    }
    assert(word@ =~= letters_of(indices@));
    word
}

/// What is left of `num` after its `i` lowest digits in the given base are
/// taken away.
pub open spec fn shifted_down(num: int, base: int, i: int) -> int
    decreases i,
{
    if i <= 0 {
        num
    } else {
        shifted_down(num, base, i - 1) / base
    }
}

/// The word of `length` letters that spells `num` in the given base, lowest
/// digit first, with `a` for 0.
pub open spec fn word_of_number(num: int, length: int, base: int) -> Seq<u8> {
    Seq::new(length as nat, |i: int| (0x61 + shifted_down(num, base, i) % base) as u8)
}

/// The word of `length` letters over an alphabet of `alphabet_size` letters
/// that spells `num`, lowest digit first.
pub fn number_to_word(num: usize, length: usize, alphabet_size: usize) -> (text: Vec<u8>)
    requires
        1 <= alphabet_size <= 159,
    ensures
        text@ == word_of_number(num as int, length as int, alphabet_size as int),
{
    let mut text: Vec<u8> = Vec::new();
    let mut remainder = num;
    let mut i: usize = 0;
    while i < length
        invariant
            i <= length,
            1 <= alphabet_size <= 159,
            text.len() == i,
            remainder == shifted_down(num as int, alphabet_size as int, i as int),
            forall|k: int|
                0 <= k < i ==> #[trigger] text[k] == (0x61 + shifted_down(
                    num as int,
                    alphabet_size as int,
                    k,
                ) % (alphabet_size as int)) as u8,
        decreases length - i,
    {
        text.push(0x61u8 + ((remainder % alphabet_size) as u8));
        remainder = remainder / alphabet_size;
        i += 1;
    }
    assert(text@ =~= word_of_number(num as int, length as int, alphabet_size as int));
    text
}

} // verus!
