//! Small helpers: the bit length of a number, optional file names, and two
//! helpers for binary words.

use vstd::prelude::*;
use vstd::std_specs::bits::u64_leading_zeros;

verus! {

/// The number of binary digits of `i`: the position of its highest set bit,
/// counted from 1, and 0 for 0.
pub open spec fn bit_length(i: int) -> nat
    decreases i,
{
    if i <= 0 {
        0
    } else {
        1 + bit_length(i / 2)
    }
}

proof fn lemma_leading_zeros(i: u64)
    ensures
        u64_leading_zeros(i) + bit_length(i as int) == 64,
    decreases i,
{
    reveal(u64_leading_zeros);
    if i != 0 {
        lemma_leading_zeros(i / 2);
    }
}

/// A number of 64 bits has at most 64 binary digits.
pub proof fn lemma_bit_length_bound(i: u64)
    ensures
        bit_length(i as int) <= 64,
{
    lemma_leading_zeros(i);
    vstd::std_specs::bits::axiom_u64_leading_zeros(i);
}

/// The position of the most significant set bit of `i`, counted from 1.
pub fn bit_size(i: usize) -> (bits: u8)
    ensures
        bits == bit_length(i as int),
{
    proof {
        lemma_leading_zeros(i as u64);
    }
    (64 - (i as u64).leading_zeros()) as u8
}

/// Turns a borrowed optional `String` into an optional `&str`.
pub fn stringopt_stropt(i: &Option<String>) -> (o: Option<&str>)
    ensures
        i.is_some() == o.is_some(),
        i.is_some() ==> o.unwrap()@ == i.unwrap()@,
{
    match i {
        None => None,
        Some(s) => Some(s.as_str()),
    }
}

/// The file name, or the word `none` where there is no file name.
pub fn get_filename(o: &Option<String>) -> (name: &str)
    ensures
        o.is_some() ==> name@ == o.unwrap()@,
        o.is_none() ==> name@ == "none"@,
{
    match o {
        None => "none",
        Some(s) => s.as_str(),
    }
}

/// How often the byte `b` occurs among the first `k` bytes.
pub open spec fn count_byte(s: Seq<u8>, b: u8, k: int) -> nat
    decreases k,
{
    if k <= 0 {
        0
    } else if s[k - 1] == b {
        count_byte(s, b, k - 1) + 1
    } else {
        count_byte(s, b, k - 1)
    }
}

fn count_zero_digits(text: &[u8]) -> (count: usize)
    ensures
        count == count_byte(text@, 0x30, text.len() as int),
{
    let mut count: usize = 0;
    let mut k: usize = 0;
    while k < text.len()
        invariant
            k <= text.len(),
            count <= k,
            count == count_byte(text@, 0x30, k as int),
        decreases text.len() - k,
    {
        if text[k] == 0x30 {
            count += 1;
        }
        k += 1;
    }
    count
}

/// Whether `newtext` holds fewer digits `0` than `oldtext`.
pub fn second_criteria(newtext: &[u8], oldtext: &[u8]) -> (fewer: bool)
    ensures
        fewer == (count_byte(newtext@, 0x30, newtext.len() as int) < count_byte(
            oldtext@,
            0x30,
            oldtext.len() as int,
        )),
{
    count_zero_digits(newtext) < count_zero_digits(oldtext)
}

/// `String::push`: the character is added at the end.
#[verifier::external_body]
fn push_char(s: &mut String, c: char)
    ensures
        final(s)@ == old(s)@.push(c),
{
    s.push(c);
}

/// The letter that stands for a byte of a binary word: `a` for 0, `b` for
/// every other byte.
pub open spec fn binary_letter(c: u8) -> char {
    if c == 0 {
        'a'
    } else {
        'b'
    }
}

/// Writes a binary word with the letters `a` for 0 and `b` for the rest.
pub fn binary_vector_to_str(text: &[u8]) -> (output: String)
    ensures
        output@ == Seq::new(text.len() as nat, |i: int| binary_letter(text[i])),
{
    let mut output = String::new();
    let mut k: usize = 0;
    while k < text.len()
        invariant
            k <= text.len(),
            output@ == Seq::new(k as nat, |i: int| binary_letter(text[i])),
        decreases text.len() - k,
    {
        if text[k] == 0 {
            push_char(&mut output, 'a');
        } else {
            push_char(&mut output, 'b');
        }
        assert(output@ =~= Seq::new((k + 1) as nat, |i: int| binary_letter(text[i])));
        k += 1;
    }
    output
}

} // verus!
