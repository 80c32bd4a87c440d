//! Enumerations of short texts, to try algorithms on and to search through.

use crate::util::{bit_length, bit_size};
use std::ops::Range;
use vstd::prelude::*;

verus! {

/// The digit that the bits of `round` from `shift` on spell in an alphabet of
/// `2^log` symbols, moved up by one so that no digit is 0.
pub open spec fn digit_of(round: u64, log: u8, shift: u8) -> u8 {
    (((round >> shift) & (u64::MAX >> ((64 - log) as u8))) + 1) as u8
}

/// The number of digits that the text for `round` holds.
pub open spec fn digit_count(round: u64, log: u8) -> int {
    if bit_length(round as int) as int / (log as int) >= 1 {
        bit_length(round as int) as int / (log as int) - 1
    } else {
        0
    }
}

/// The text number `round` over an alphabet of `2^log` symbols: the digits of
/// `round` but the lowest, lowest first, and a 0 byte at the end.
pub open spec fn test_string(round: u64, log: u8) -> Seq<u8> {
    Seq::new(
        digit_count(round, log) as nat,
        |k: int| digit_of(round, log, (log * (k + 1)) as u8),
    ).push(0)
}

fn digit(round: u64, log: u8, shift: u8) -> (d: u8)
    requires
        1 <= log < 64,
        shift < 64,
    ensures
        d == digit_of(round, log, shift),
{
    let width: u8 = 64 - log;
    let mask: u64 = u64::MAX >> width;
    let bits: u64 = (round >> shift) & mask;
    assert(bits < 0xffff_ffff_ffff_ffffu64) by (bit_vector)
        requires
            bits == (round >> shift) & mask,
            mask == 0xffff_ffff_ffff_ffffu64 >> width,
            1 <= width < 64,
    ;
    #[verifier::truncate]
    ((bits + 1) as u8)
}

proof fn lemma_shift_bound(log: int, i: int, msb: int)
    by (nonlinear_arith)
    requires
        1 <= log,
        0 <= i < msb / log,
    ensures
        log * i < msb,
        log * i >= 0,
{
}

fn make_test_string(round: usize, log_alphabet_size: u8) -> (text: Vec<u8>)
    requires
        1 <= log_alphabet_size <= 64,
    ensures
        text@ == test_string(round as u64, log_alphabet_size),
{
    let most_significant_bit = bit_size(round);
    let mut text: Vec<u8> = Vec::new();
    let count = (most_significant_bit / log_alphabet_size) as usize;
    proof {
        crate::util::lemma_bit_length_bound(round as u64);
    }
    let mut i: usize = 1;
    while i < count
        invariant
            1 <= log_alphabet_size <= 64,
            most_significant_bit == bit_length(round as int),
            most_significant_bit <= 64,
            count == most_significant_bit / log_alphabet_size,
            1 <= i,
            text.len() == i - 1,
            i <= count || (count == 0 && i == 1),
            forall|k: int|
                0 <= k < text.len() ==> #[trigger] text[k] == digit_of(
                    round as u64,
                    log_alphabet_size,
                    (log_alphabet_size * (k + 1)) as u8,
                ),
        decreases count - i,
    {
        proof {
            lemma_shift_bound(log_alphabet_size as int, i as int, most_significant_bit as int);
        }
        let shift = log_alphabet_size * (i as u8);
        text.push(digit(round as u64, log_alphabet_size, shift));
        i += 1;
    }
    let ghost digits = text@;
    text.push(0);
    assert(round as u64 as int == round as int);
    assert(digits.len() == digit_count(round as u64, log_alphabet_size));
    assert(digits =~= Seq::new(
        digit_count(round as u64, log_alphabet_size) as nat,
        |k: int| digit_of(round as u64, log_alphabet_size, (log_alphabet_size * (k + 1)) as u8),
    ));
    text
}

/// Enumerates short texts that end in a 0 byte, one for every number of a
/// range.
pub struct RandomStringGenerator {
    pub m_range: Range<usize>,
    pub m_log_alphabet_size: u8,
}

impl RandomStringGenerator {
    /// A generator for the numbers of `r` and an alphabet of
    /// `2^log_alphabet_size` symbols.
    pub fn new(r: Range<usize>, log_alphabet_size: u8) -> (generator: RandomStringGenerator)
        ensures
            generator.m_range == r,
            generator.m_log_alphabet_size == log_alphabet_size,
    {
        RandomStringGenerator { m_range: r, m_log_alphabet_size: log_alphabet_size }
    }

    /// The next text, as long as twice the number reached is below the end
    /// of the range.
    pub fn next(&mut self) -> (text: Option<Vec<u8>>)
        requires
            old(self).m_range.start <= usize::MAX / 2,
            1 <= old(self).m_log_alphabet_size <= 64,
        ensures
            final(self).m_range.end == old(self).m_range.end,
            final(self).m_log_alphabet_size == old(self).m_log_alphabet_size,
            old(self).m_range.start * 2 >= old(self).m_range.end ==> text.is_none()
                && final(self).m_range.start == old(self).m_range.start,
            old(self).m_range.start * 2 < old(self).m_range.end ==> final(self).m_range.start
                == old(self).m_range.start + 1 && text.is_some() && text.unwrap()@ == test_string(
                (old(self).m_range.start + 1) as u64,
                old(self).m_log_alphabet_size,
            ),
    {
        if self.m_range.start * 2 >= self.m_range.end {
            None
        } else {
            self.m_range.start += 1;
            let iter_round = self.m_range.start;
            Some(make_test_string(iter_round, self.m_log_alphabet_size))
        }
    }
}

/// Enumerates short texts that end in a 0 byte, one for every number of a
/// range.
pub struct StringTestFactory {
    pub m_range: Range<usize>,
    pub m_log_alphabet_size: u8,
}

impl StringTestFactory {
    /// A factory for the numbers of `r` and an alphabet of
    /// `2^log_alphabet_size` symbols.
    pub fn new(r: Range<usize>, log_alphabet_size: u8) -> (factory: StringTestFactory)
        ensures
            factory.m_range == r,
            factory.m_log_alphabet_size == log_alphabet_size,
    {
        StringTestFactory { m_range: r, m_log_alphabet_size: log_alphabet_size }
    }

    /// The next text, as long as twice the number reached is below the end
    /// of the range.
    pub fn next(&mut self) -> (text: Option<Vec<u8>>)
        requires
            old(self).m_range.start <= usize::MAX / 2,
            1 <= old(self).m_log_alphabet_size <= 64,
        ensures
            final(self).m_range.end == old(self).m_range.end,
            final(self).m_log_alphabet_size == old(self).m_log_alphabet_size,
            old(self).m_range.start * 2 >= old(self).m_range.end ==> text.is_none()
                && final(self).m_range.start == old(self).m_range.start,
            old(self).m_range.start * 2 < old(self).m_range.end ==> final(self).m_range.start
                == old(self).m_range.start + 1 && text.is_some() && text.unwrap()@ == test_string(
                (old(self).m_range.start + 1) as u64,
                old(self).m_log_alphabet_size,
            ),
    {
        if self.m_range.start * 2 >= self.m_range.end {
            None
        } else {
            self.m_range.start += 1;
            let iter_round = self.m_range.start;
            Some(make_test_string(iter_round, self.m_log_alphabet_size))
        }
    }
}

/// The digit, `0` or `1`, that bit `i` of `rank` gives.
pub open spec fn binary_digit(rank: u64, i: u8) -> u8 {
    if rank & (1u64 << i) == 0 {
        0x30
    } else {
        0x31
    }
}

/// Iterates over the binary strings of a given length, in the order of the
/// numbers that they spell with their lowest bit first.
pub struct BinaryStringGenerator {
    pub m_length: u8,
    pub m_rank: u64,
}

impl BinaryStringGenerator {
    /// A generator of strings of `length` digits that starts at the number 0.
    pub fn new(length: u8) -> (generator: BinaryStringGenerator)
        ensures
            generator.m_length == length,
            generator.m_rank == 0,
    {
        BinaryStringGenerator { m_length: length, m_rank: 0 }
    }

    /// The digits of the number reached, lowest bit first; the number then
    /// goes up by one. There is no string for the largest number.
    pub fn next(&mut self) -> (text: Option<Vec<u8>>)
        requires
            old(self).m_length <= 64,
        ensures
            final(self).m_length == old(self).m_length,
            old(self).m_rank == u64::MAX ==> text.is_none() && final(self).m_rank == old(self).m_rank,
            old(self).m_rank < u64::MAX ==> final(self).m_rank == old(self).m_rank + 1
                && text.is_some() && text.unwrap()@ == Seq::new(
                old(self).m_length as nat,
                |i: int| binary_digit(old(self).m_rank, i as u8),
            ),
    {
        if self.m_rank == u64::MAX {
            return None;
        }
        let mut text: Vec<u8> = Vec::new();
        let mut i: u8 = 0;
        while i < self.m_length
            invariant
                self.m_length <= 64,
                i <= self.m_length,
                text.len() == i,
                forall|k: int| 0 <= k < i ==> #[trigger] text[k] == binary_digit(self.m_rank, k as u8),
            decreases self.m_length - i,
        {
            let bit = self.m_rank & (1u64 << i);
            text.push(if bit == 0 { 0x30 } else { 0x31 });
            i += 1;
        }
        assert(text@ =~= Seq::new(
            self.m_length as nat,
            |i: int| binary_digit(self.m_rank, i as u8),
        ));
        self.m_rank += 1;
        Some(text)
    }
}

/// Iterates over all rotations of a text: the text from `i` on, followed by
/// the text up to `i`, for every `i`.
pub struct ConjugateIterator<'a> {
    pub m_text: &'a [u8],
    pub m_pos: usize,
}

impl<'a> ConjugateIterator<'a> {
    /// An iterator that starts with the text itself.
    pub fn new(text: &'a [u8]) -> (iterator: ConjugateIterator<'a>)
        ensures
            iterator.m_text@ == text@,
            iterator.m_pos == 0,
    {
        ConjugateIterator { m_text: text, m_pos: 0 }
    }

    /// The rotation that starts at the position reached; the position then
    /// goes up by one.
    pub fn next(&mut self) -> (rotation: Option<Vec<u8>>)
        requires
            old(self).m_pos <= old(self).m_text@.len(),
        ensures
            final(self).m_text@ == old(self).m_text@,
            old(self).m_pos == old(self).m_text@.len() ==> rotation.is_none() && final(self).m_pos
                == old(self).m_pos,
            old(self).m_pos < old(self).m_text@.len() ==> final(self).m_pos == old(self).m_pos + 1
                && rotation.is_some() && rotation.unwrap()@ == old(self).m_text@.subrange(
                old(self).m_pos as int,
                old(self).m_text@.len() as int,
            ) + old(self).m_text@.subrange(0, old(self).m_pos as int),
    {
        if self.m_pos == self.m_text.len() {
            return None;
        }
        let n = self.m_text.len();
        let mut ret: Vec<u8> = Vec::new();
        let mut i: usize = self.m_pos;
        while i < n
            invariant
                n == self.m_text@.len(),
                self.m_pos <= i <= n,
                ret@ == self.m_text@.subrange(self.m_pos as int, i as int),
            decreases n - i,
        {
            ret.push(self.m_text[i]);
            assert(ret@ =~= self.m_text@.subrange(self.m_pos as int, i + 1));
            i += 1;
        }
        let mut i: usize = 0;
        while i < self.m_pos
            invariant
                n == self.m_text@.len(),
                i <= self.m_pos < n,
                ret@ == self.m_text@.subrange(self.m_pos as int, n as int) + self.m_text@.subrange(
                    0,
                    i as int,
                ),
            decreases self.m_pos - i,
        {
            ret.push(self.m_text[i]);
            assert(ret@ =~= self.m_text@.subrange(self.m_pos as int, n as int)
                + self.m_text@.subrange(0, i + 1));
            i += 1;
        }
        self.m_pos += 1;
        Some(ret)
    }
}

/// The letter of `w` at `i`, with `w` written again and again.
pub open spec fn repeated_letter(w: Seq<u8>, i: int) -> u8 {
    w[i % (w.len() as int)]
}

/// `w` written again and again, cut after `n` letters.
pub open spec fn repeated(w: Seq<u8>, n: int) -> Seq<u8> {
    Seq::new(n as nat, |i: int| repeated_letter(w, i))
}

/// `s` without the letters `z` at its end.
pub open spec fn stripped(s: Seq<u8>, z: int) -> Seq<u8>
    decreases s.len(),
{
    if s.len() > 0 && s.last() == z {
        stripped(s.drop_last(), z)
    } else {
        s
    }
}

/// `s` with its last letter raised by one.
pub open spec fn bumped(s: Seq<u8>) -> Seq<u8> {
    s.drop_last().push((s.last() + 1) as u8)
}

/// Generates the Lyndon words of up to `m_length` letters over an alphabet
/// of `m_alphabet_size` letters, in lexicographic order.
pub struct LyndonWordGenerator {
    pub m_length: usize,
    pub m_alphabet_size: usize,
    pub m_stack: Vec<u8>,
}

impl LyndonWordGenerator {
    /// The word reached is no longer than allowed, and its letters belong to
    /// the alphabet.
    pub open spec fn wf(&self) -> bool {
        &&& 1 <= self.m_alphabet_size <= 256
        &&& self.m_stack@.len() <= self.m_length || self.m_length == 0
        &&& forall|i: int| 0 <= i < self.m_stack@.len() ==> #[trigger] self.m_stack@[i] < self.m_alphabet_size
    }

    /// A generator that has not produced a word yet.
    pub fn new(length: usize, alphabet_size: usize) -> (generator: LyndonWordGenerator)
        ensures
            generator.m_length == length,
            generator.m_alphabet_size == alphabet_size,
            generator.m_stack@.len() == 0,
    {
        LyndonWordGenerator { m_length: length, m_alphabet_size: alphabet_size, m_stack: Vec::new() }
    }

    /// The next Lyndon word: the word reached is repeated up to the full
    /// length, the largest letters at its end are taken away, and the last
    /// letter that is left is raised by one. The first word is the smallest
    /// letter alone; after the last word there is none, and none ever after.
    pub fn next(&mut self) -> (word: Option<Vec<u8>>)
        requires
            old(self).wf(),
        ensures
            final(self).wf(),
            final(self).m_alphabet_size == old(self).m_alphabet_size,
            old(self).m_length == 0 ==> word.is_none() && final(self).m_length == 0
                && final(self).m_stack@ == old(self).m_stack@,
            old(self).m_length > 0 && old(self).m_stack@.len() == 0 ==> final(self).m_length
                == old(self).m_length && final(self).m_stack@ == seq![0u8] && word.is_some()
                && word.unwrap()@ == seq![0u8],
            old(self).m_length > 0 && old(self).m_stack@.len() > 0 && stripped(
                repeated(old(self).m_stack@, old(self).m_length as int),
                old(self).m_alphabet_size - 1,
            ).len() == 0 ==> word.is_none() && final(self).m_length == 0 && final(self).m_stack@.len() == 0,
            old(self).m_length > 0 && old(self).m_stack@.len() > 0 && stripped(
                repeated(old(self).m_stack@, old(self).m_length as int),
                old(self).m_alphabet_size - 1,
            ).len() > 0 ==> final(self).m_length == old(self).m_length && word.is_some()
                && word.unwrap()@ == final(self).m_stack@ && final(self).m_stack@ == bumped(
                stripped(
                    repeated(old(self).m_stack@, old(self).m_length as int),
                    old(self).m_alphabet_size - 1,
                ),
            ),
    {
        if self.m_length == 0 {
            return None;
        }
        if self.m_stack.len() == 0 {
            self.m_stack.push(0);
            assert(self.m_stack@ =~= seq![0u8]);
            return Some(self.m_stack.clone());
        }
        let ghost start = self.m_stack@;
        let current_length = self.m_stack.len();
        proof {
            assert forall|i: int| 0 <= i < start.len() implies repeated_letter(start, i) == start[i] by {
                let n = start.len() as int;
                assert(i % n == i) by (nonlinear_arith)
                    requires
                        0 <= i < n,
                ;
            }
            assert(start =~= repeated(start, start.len() as int));
        }
        while self.m_stack.len() < self.m_length
            invariant
                self.m_length == old(self).m_length,
                self.m_alphabet_size == old(self).m_alphabet_size,
                start == old(self).m_stack@,
                old(self).wf(),
                current_length == start.len(),
                1 <= current_length <= self.m_stack@.len() <= self.m_length,
                self.m_stack@ == repeated(start, self.m_stack@.len() as int),
            decreases self.m_length - self.m_stack.len(),
        {
            let len = self.m_stack.len();
            let letter = self.m_stack[len - current_length];
            proof {
                lemma_repeated_back(start, len as int);
            }
            self.m_stack.push(letter);
            assert(self.m_stack@ =~= repeated(start, len + 1));
        }
        let ghost full = self.m_stack@;
        let last_letter = self.m_alphabet_size - 1;
        proof {
            assert forall|i: int| 0 <= i < full.len() implies #[trigger] full[i] < self.m_alphabet_size by {
                lemma_repeated_in(start, i);
            }
        }
        while self.m_stack.len() > 0 && self.m_stack[self.m_stack.len() - 1] as usize == last_letter
            invariant
                self.m_length == old(self).m_length,
                self.m_alphabet_size == old(self).m_alphabet_size,
                1 <= self.m_alphabet_size <= 256,
                last_letter == self.m_alphabet_size - 1,
                self.m_stack@.len() <= self.m_length,
                stripped(self.m_stack@, last_letter as int) == stripped(full, last_letter as int),
                forall|i: int|
                    0 <= i < self.m_stack@.len() ==> #[trigger] self.m_stack@[i]
                        < self.m_alphabet_size,
            decreases self.m_stack.len(),
        {
            let ghost before = self.m_stack@;
            self.m_stack.pop();
            assert(self.m_stack@ =~= before.drop_last());
        }
        if self.m_stack.len() == 0 {
            self.m_length = 0;
            return None;
        }
        let ghost rest = self.m_stack@;
        let last = self.m_stack.len() - 1;
        let raised = self.m_stack[last] + 1;
        self.m_stack[last] = raised;
        assert(self.m_stack@ =~= bumped(rest));
        Some(self.m_stack.clone())
    }
}

proof fn lemma_repeated_back(w: Seq<u8>, i: int)
    requires
        1 <= w.len() <= i,
    ensures
        repeated_letter(w, i) == repeated_letter(w, i - w.len()),
{
    let n = w.len() as int;
    assert(i % n == (i - n) % n) by (nonlinear_arith)
        requires
            1 <= n <= i,
    ;
}

proof fn lemma_repeated_in(w: Seq<u8>, i: int)
    requires
        1 <= w.len(),
        0 <= i,
    ensures
        0 <= i % (w.len() as int) < w.len(),
{
    let n = w.len() as int;
    assert(0 <= i % n < n) by (nonlinear_arith)
        requires
            1 <= n,
            0 <= i,
    ;
}

} // verus!
