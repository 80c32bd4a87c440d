//! Words from combinatorics on words: Fibonacci, Thue-Morse and
//! period-doubling words, and binary de Bruijn sequences.

use crate::lyndon::{is_necklace, is_prenecklace};
use vstd::arithmetic::power2::{lemma_pow2_unfold, pow2};
use vstd::prelude::*;

verus! {

pub const CHR_A: u8 = 0x61;

pub const CHR_B: u8 = 0x62;

/// 2 to the power of `e`.
pub fn two_to(e: u8) -> (power: usize)
    requires
        pow2(e as nat) <= usize::MAX,
    ensures
        power == pow2(e as nat),
{
    let mut power: usize = 1;
    let mut k: u8 = 0;
    proof {
        vstd::arithmetic::power2::lemma2_to64();
    }
    while k < e
        invariant
            k <= e,
            power == pow2(k as nat),
            pow2(e as nat) <= usize::MAX,
        decreases e - k,
    {
        proof {
            lemma_pow2_unfold((k + 1) as nat);
            if k + 1 < e {
                vstd::arithmetic::power2::lemma_pow2_strictly_increases((k + 1) as nat, e as nat);
            }
        }
        power = power * 2;
        k += 1;
    }
    power
}

/// The length of the Fibonacci word of order `k`: 1, 1, 2, 3, 5, ..
pub open spec fn fibonacci_length(k: nat) -> nat
    decreases k,
{
    if k <= 1 {
        1
    } else {
        fibonacci_length((k - 1) as nat) + fibonacci_length((k - 2) as nat)
    }
}

/// What the Fibonacci morphism turns a letter into, as it is applied here:
/// `a` into `ba`, every other letter into `a`.
pub open spec fn fibonacci_image(c: u8) -> Seq<u8> {
    if c == CHR_A {
        seq![CHR_B, CHR_A]
    } else {
        seq![CHR_A]
    }
}

/// The images of the first `j` letters of `s`, one after the other.
pub open spec fn fibonacci_expansion(s: Seq<u8>, j: int) -> Seq<u8>
    decreases j,
{
    if j <= 0 {
        Seq::empty()
    } else {
        fibonacci_expansion(s, j - 1) + fibonacci_image(s[j - 1])
    }
}

/// `full` starts with `a`, and goes on with the images of its own first `j`
/// letters: it is a prefix of the infinite Fibonacci word.
pub open spec fn is_fibonacci_prefix(full: Seq<u8>, j: int) -> bool {
    0 <= j <= full.len() && full == seq![CHR_A] + fibonacci_expansion(full, j)
}

/// `text` is the Fibonacci word of order `k`.
pub open spec fn is_fibonacci_word(text: Seq<u8>, k: nat) -> bool {
    exists|full: Seq<u8>, j: int| #[trigger]
        is_fibonacci_prefix(full, j) && fibonacci_length(k) <= full.len() && text == full.take(
            fibonacci_length(k) as int,
        )
}

proof fn lemma_fibonacci_length_monotone(a: nat, b: nat)
    requires
        a <= b,
    ensures
        fibonacci_length(a) <= fibonacci_length(b),
    decreases b,
{
    if a < b {
        lemma_fibonacci_length_monotone(a, (b - 1) as nat);
    }
}

proof fn lemma_expansion_stable(s: Seq<u8>, longer: Seq<u8>, j: int)
    requires
        0 <= j <= s.len() <= longer.len(),
        forall|i: int| 0 <= i < s.len() ==> s[i] == longer[i],
    ensures
        fibonacci_expansion(s, j) == fibonacci_expansion(longer, j),
    decreases j,
{
    if j > 0 {
        lemma_expansion_stable(s, longer, j - 1);
    }
}

/// The `k`-th number of the sequence 1, 1, 2, 3, 5, ..
pub fn fibonacci_number(k: u8) -> (number: usize)
    requires
        fibonacci_length(k as nat) <= usize::MAX,
    ensures
        number == fibonacci_length(k as nat),
{
    let mut previous: usize = 0;
    let mut current: usize = 1;
    let mut round: u8 = 0;
    while round < k
        invariant
            round <= k,
            fibonacci_length(k as nat) <= usize::MAX,
            current == fibonacci_length(round as nat),
            round == 0 ==> previous == 0,
            round > 0 ==> previous == fibonacci_length((round - 1) as nat),
        decreases k - round,
    {
        proof {
            lemma_fibonacci_length_monotone((round + 1) as nat, k as nat);
        }
        let next = current + previous;
        previous = current;
        current = next;
        round += 1;
    }
    current
}

/// The Fibonacci word of order `k`: `a`, `a`, `ab`, `aba`, `abaab`, ..
pub fn fibonacci(k: u8) -> (text: Vec<u8>)
    requires
        fibonacci_length(k as nat) <= usize::MAX,
    ensures
        is_fibonacci_word(text@, k as nat),
{
    let mut text: Vec<u8> = Vec::new();
    text.push(CHR_A);
    let mut previous_fibonacci_number: usize = 0;
    let mut current_fibonacci_number: usize = 1;
    let mut source: usize = 0;
    assert(text@ =~= seq![CHR_A] + fibonacci_expansion(text@, 0));
    let mut round: u8 = 0;
    while round < k
        invariant
            round <= k,
            fibonacci_length(k as nat) <= usize::MAX,
            current_fibonacci_number == fibonacci_length(round as nat),
            round == 0 ==> previous_fibonacci_number == 0,
            round > 0 ==> previous_fibonacci_number == fibonacci_length((round - 1) as nat),
            source < text.len(),
            current_fibonacci_number <= text.len(),
            is_fibonacci_prefix(text@, source as int),
        decreases k - round,
    {
        proof {
            lemma_fibonacci_length_monotone((round + 1) as nat, k as nat);
        }
        let new_fibonacci_number = current_fibonacci_number + previous_fibonacci_number;
        while text.len() < new_fibonacci_number
            invariant
                source < text.len(),
                is_fibonacci_prefix(text@, source as int),
                current_fibonacci_number <= text.len(),
            decreases new_fibonacci_number + 2 - text.len(),
        {
            let ghost before = text@;
            if text[source] == CHR_A {
                text.push(CHR_B);
                text.push(CHR_A);
            } else {
                text.push(CHR_A);
            }
            proof {
                lemma_expansion_stable(before, text@, source as int);
                assert(text@ =~= seq![CHR_A] + fibonacci_expansion(text@, source + 1));
            }
            source += 1;
        }
        previous_fibonacci_number = current_fibonacci_number;
        current_fibonacci_number = new_fibonacci_number;
        round += 1;
    }
    let ghost full = text@;
    text.truncate(current_fibonacci_number);
    proof {
        assert(is_fibonacci_prefix(full, source as int));
        assert(text@ =~= full.take(fibonacci_length(k as nat) as int));
    }
    text
}

/// The other letter of the alphabet `a`, `b`.
pub fn reverse(c: u8) -> (other: u8)
    ensures
        other == flipped(c),
{
    if c == CHR_A {
        CHR_B
    } else {
        CHR_A
    }
}

/// The other letter of the alphabet `a`, `b`: `b` for `a`, and `a` for
/// everything else.
pub open spec fn flipped(c: u8) -> u8 {
    if c == CHR_A {
        CHR_B
    } else {
        CHR_A
    }
}

/// `s` is the Thue-Morse word of order `i`: it has `2^i` letters, starts
/// with `a`, and every block of `2^j` letters is followed by the same block
/// with the letters exchanged.
pub open spec fn is_thue_morse(s: Seq<u8>, i: nat) -> bool {
    &&& s.len() == pow2(i)
    &&& s[0] == CHR_A
    &&& forall|j: nat, x: int| j < i && 0 <= x < pow2(j) ==> #[trigger] flips_at(s, j, x)
}

/// The letter at offset `x` of the block that starts at `2^j` is the other
/// letter than the one at `x`.
pub open spec fn flips_at(s: Seq<u8>, j: nat, x: int) -> bool {
    s[pow2(j) + x] == flipped(s[x])
}

/// The Thue-Morse word of order `i`: `a`, `ab`, `abba`, `abbabaab`, ..
pub fn thuemorse(i: u8) -> (s: Vec<u8>)
    requires
        pow2(i as nat) <= usize::MAX,
    ensures
        is_thue_morse(s@, i as nat),
{
    let mut s: Vec<u8> = Vec::new();
    s.push(CHR_A);
    let mut j: u8 = 0;
    proof {
        vstd::arithmetic::power2::lemma2_to64();
    }
    while j < i
        invariant
            j <= i,
            pow2(i as nat) <= usize::MAX,
            is_thue_morse(s@, j as nat),
        decreases i - j,
    {
        proof {
            vstd::arithmetic::power2::lemma_pow2_pos(j as nat);
            lemma_pow2_unfold((j + 1) as nat);
            if j + 1 < i {
                vstd::arithmetic::power2::lemma_pow2_strictly_increases((j + 1) as nat, i as nat);
            }
        }
        let powerj = s.len();
        let ghost before = s@;
        let mut k: usize = 0;
        while k < powerj
            invariant
                k <= powerj,
                powerj == pow2(j as nat),
                before.len() == powerj,
                s.len() == powerj + k,
                forall|x: int| 0 <= x < powerj ==> #[trigger] s[x] == before[x],
                forall|x: int| 0 <= x < k ==> #[trigger] flips_at(s@, j as nat, x),
            decreases powerj - k,
        {
            let c = s[k];
            let ghost earlier = s@;
            s.push(if c == CHR_A { CHR_B } else { CHR_A });
            proof {
                assert forall|x: int| 0 <= x < k + 1 implies #[trigger] flips_at(s@, j as nat, x) by {
                    if x < k {
                        assert(flips_at(earlier, j as nat, x));
                    }
                }
            }
            k += 1;
        }
        proof {
            assert forall|m: nat, x: int| m < j + 1 && 0 <= x < pow2(m) implies #[trigger] flips_at(
                s@,
                m,
                x,
            ) by {
                if m < j {
                    vstd::arithmetic::power2::lemma_pow2_strictly_increases(m, j as nat);
                    lemma_pow2_unfold(j as nat);
                    if m + 1 < j {
                        vstd::arithmetic::power2::lemma_pow2_strictly_increases(
                            (m + 1) as nat,
                            j as nat,
                        );
                    }
                    lemma_pow2_unfold((m + 1) as nat);
                    assert(pow2(m) + x < pow2(j as nat));
                    assert(flips_at(before, m, x));
                    assert(s[x] == before[x]);
                    assert(s[pow2(m) + x] == before[pow2(m) + x]);
                } else {
                    assert(flips_at(s@, j as nat, x));
                }
            }
            assert(s[0] == before[0]);
        }
        j += 1;
    }
    s
}

/// The morphism of the period-doubling sequence: `a` becomes `ab`, every
/// other letter `aa`.
pub fn period_doubling(c: u8) -> (image: (u8, u8))
    ensures
        image == period_doubling_image(c),
{
    if c == CHR_A {
        (CHR_A, CHR_B)
    } else {
        (CHR_A, CHR_A)
    }
}

/// What the period-doubling morphism turns a letter into.
pub open spec fn period_doubling_image(c: u8) -> (u8, u8) {
    if c == CHR_A {
        (CHR_A, CHR_B)
    } else {
        (CHR_A, CHR_A)
    }
}

/// `s` is a fixed point of the period-doubling morphism as far as it goes:
/// it starts with `a`, and the letters at `2m` and `2m + 1` are the image of
/// the letter at `m`.
pub open spec fn is_period_doubling(s: Seq<u8>) -> bool {
    &&& s.len() >= 1
    &&& s[0] == CHR_A
    &&& forall|m: int|
        0 <= m && 2 * m + 1 < s.len() ==> #[trigger] period_doubling_image(s[m]) == (
            s[2 * m],
            s[2 * m + 1],
        )
}

/// The period-doubling sequence of `2^(k - 1)` letters; the single letter
/// `a` for `k` below 2.
pub fn period_doubling_sequence(k: u8) -> (text: Vec<u8>)
    requires
        k >= 1 ==> pow2((k - 1) as nat) <= usize::MAX,
    ensures
        is_period_doubling(text@),
        k <= 1 ==> text@.len() == 1,
        k >= 1 ==> text@.len() == pow2((k - 1) as nat),
{
    let mut text: Vec<u8> = Vec::new();
    text.push(CHR_A);
    proof {
        vstd::arithmetic::power2::lemma2_to64();
    }
    if k <= 1 {
        return text;
    }
    let n = two_to(k - 1);
    proof {
        lemma_pow2_unfold((k - 1) as nat);
        vstd::arithmetic::power2::lemma_pow2_pos((k - 2) as nat);
    }
    text.push(CHR_B);
    let mut source_pos: usize = 1;
    while text.len() < n
        invariant
            n % 2 == 0,
            1 <= source_pos,
            text.len() == 2 * source_pos,
            text.len() <= n,
            text[0] == CHR_A,
            text[1] == CHR_B,
            forall|m: int|
                1 <= m < source_pos ==> #[trigger] period_doubling_image(text[m]) == (
                    text[2 * m],
                    text[2 * m + 1],
                ),
        decreases n - text.len(),
    {
        let image = period_doubling(text[source_pos]);
        text.push(image.0);
        text.push(image.1);
        source_pos += 1;
    }
    proof {
        assert forall|m: int| 0 <= m && 2 * m + 1 < text.len() implies #[trigger] period_doubling_image(
            text[m],
        ) == (text[2 * m], text[2 * m + 1]) by {
            if m >= 1 {
                assert(m < source_pos);
            }
        }
    }
    text
}

/// The word holds no letter `b`.
pub open spec fn has_no_b(word: Seq<u8>) -> bool {
    forall|i: int| 0 <= i < word.len() ==> #[trigger] word[i] != CHR_B
}

/// The letter that one step of the construction puts out: the first letter
/// of the word, exchanged for the other letter if the rest of the word with
/// a `b` behind it is a prefix of a power of a Lyndon word.
pub open spec fn debruijn_letter(word: Seq<u8>) -> u8 {
    if is_prenecklace(word.skip(1).push(CHR_B)) {
        flipped(word[0])
    } else {
        word[0]
    }
}

/// The word after one step: its first letter is gone, and the letter that
/// the step puts out stands at its end.
pub open spec fn debruijn_shift(word: Seq<u8>) -> Seq<u8> {
    word.skip(1).push(debruijn_letter(word))
}

/// The letters that the construction puts out, from `word` on, until the
/// word holds no `b` any more, and at most `fuel` of them.
pub open spec fn debruijn_run(word: Seq<u8>, fuel: nat) -> Seq<u8>
    decreases fuel,
{
    if fuel == 0 {
        Seq::empty()
    } else if has_no_b(debruijn_shift(word)) {
        seq![debruijn_letter(word)]
    } else {
        seq![debruijn_letter(word)] + debruijn_run(debruijn_shift(word), (fuel - 1) as nat)
    }
}

fn holds_no_b(word: &Vec<u8>) -> (none: bool)
    ensures
        none == has_no_b(word@),
{
    let mut i: usize = 0;
    while i < word.len()
        invariant
            i <= word.len(),
            forall|k: int| 0 <= k < i ==> #[trigger] word[k] != CHR_B,
        decreases word.len() - i,
    {
        if word[i] == CHR_B {
            return false;
        }
        i += 1;
    }
    true
}

/// The letters that a shift rule in the manner of Sawada, Williams and Wong
/// puts out: a word of `n` letters `a` is shifted letter by letter until it
/// holds no `b` again. There are `2^n` words of `n` letters, so the word
/// comes back within as many steps or never, and the construction stops
/// after `2^n` steps. Up to `n = 4` the result is a binary de Bruijn
/// sequence of order `n`.
pub fn binary_debruijn(n: usize) -> (output: Vec<u8>)
    requires
        1 <= n,
        pow2(n as nat) <= usize::MAX,
    ensures
        output@ == debruijn_run(Seq::new(n as nat, |i: int| CHR_A), pow2(n as nat)),
{
    let mut word: Vec<u8> = vec![CHR_A; n];
    let ghost initial = word@;
    assert(initial =~= Seq::new(n as nat, |i: int| CHR_A));
    let mut output: Vec<u8> = Vec::new();
    let limit = power_of_two(n);
    let mut steps: usize = 0;
    assert(output@ + debruijn_run(word@, (limit - steps) as nat) =~= debruijn_run(
        initial,
        limit as nat,
    ));
    while steps < limit
        invariant
            steps <= limit,
            word.len() == n,
            n >= 1,
            limit == pow2(n as nat),
            initial == Seq::new(n as nat, |i: int| CHR_A),
            output@ + debruijn_run(word@, (limit - steps) as nat) == debruijn_run(
                initial,
                limit as nat,
            ),
        decreases limit - steps,
    {
        let ghost before = word@;
        let ghost put = output@;
        let mut first_char = word[0];
        word.remove(0);
        word.push(CHR_B);
        assert(word@ =~= before.skip(1).push(CHR_B));
        assert(word@.take(word.len() as int) =~= word@);
        if is_necklace(word.as_slice(), word.len()) {
            first_char = reverse(first_char);
        }
        let last = word.len() - 1;
        word[last] = first_char;
        assert(word@ =~= debruijn_shift(before));
        output.push(first_char);
        steps += 1;
        if holds_no_b(&word) {
            proof {
                assert(output@ =~= put + debruijn_run(before, (limit - steps + 1) as nat));
            }
            return output;
        }
        proof {
            assert(output@ + debruijn_run(word@, (limit - steps) as nat) =~= put + debruijn_run(
                before,
                (limit - steps + 1) as nat,
            ));
        }
    }
    assert(output@ + debruijn_run(word@, 0) =~= output@);
    output
}

/// 2 to the power of `e`.
fn power_of_two(e: usize) -> (power: usize)
    requires
        pow2(e as nat) <= usize::MAX,
    ensures
        power == pow2(e as nat),
{
    let mut power: usize = 1;
    let mut k: usize = 0;
    proof {
        vstd::arithmetic::power2::lemma2_to64();
    }
    while k < e
        invariant
            k <= e,
            power == pow2(k as nat),
            pow2(e as nat) <= usize::MAX,
        decreases e - k,
    {
        proof {
            lemma_pow2_unfold((k + 1) as nat);
            if k + 1 < e {
                vstd::arithmetic::power2::lemma_pow2_strictly_increases((k + 1) as nat, e as nat);
            }
        }
        power = power * 2;
        k += 1;
    }
    power
}

pub const CHR_C: u8 = 0x63;

pub const CHR_D: u8 = 0x64;

pub const CHR_1: u8 = 0x31;

pub const CHR_2: u8 = 0x32;

/// The symbol of the run number `i` of a Kolakoski word that starts with
/// `2`: `2` for the even runs, `1` for the odd ones.
pub open spec fn kolakoski_symbol(i: int) -> u8 {
    if i % 2 == 0 {
        CHR_2
    } else {
        CHR_1
    }
}

/// The run number `i`: its symbol once if `s` holds a `1` at `i`, and twice
/// otherwise.
pub open spec fn kolakoski_run(s: Seq<u8>, i: int) -> Seq<u8> {
    if s[i] == CHR_1 {
        seq![kolakoski_symbol(i)]
    } else {
        seq![kolakoski_symbol(i), kolakoski_symbol(i)]
    }
}

/// The first `j` runs that `s` describes, one after the other.
pub open spec fn kolakoski_expansion(s: Seq<u8>, j: int) -> Seq<u8>
    decreases j,
{
    if j <= 0 {
        Seq::empty()
    } else {
        kolakoski_expansion(s, j - 1) + kolakoski_run(s, j - 1)
    }
}

/// The Kolakoski word of order `k`: `22` for order 0, and for every other
/// order the runs that the word of the order before describes.
pub open spec fn kolakoski_word(k: nat) -> Seq<u8>
    decreases k,
{
    if k == 0 {
        seq![CHR_2, CHR_2]
    } else {
        kolakoski_expansion(
            kolakoski_word((k - 1) as nat),
            kolakoski_word((k - 1) as nat).len() as int,
        )
    }
}

proof fn lemma_kolakoski_stable(s: Seq<u8>, longer: Seq<u8>, j: int)
    requires
        0 <= j <= s.len() <= longer.len(),
        forall|i: int| 0 <= i < s.len() ==> s[i] == longer[i],
    ensures
        kolakoski_expansion(s, j) == kolakoski_expansion(longer, j),
    decreases j,
{
    if j > 0 {
        lemma_kolakoski_stable(s, longer, j - 1);
    }
}

/// The Kolakoski word of order `k` that starts with `22`.
pub fn kolakoski(k: u8) -> (text: Vec<u8>)
    ensures
        text@ == kolakoski_word(k as nat),
{
    let mut text: Vec<u8> = Vec::new();
    text.push(CHR_2);
    text.push(CHR_2);
    let mut source: usize = 1;
    let mut current_size: usize = 2;
    proof {
        assert(kolakoski_expansion(text@, 0) =~= Seq::<u8>::empty());
        assert(text@ =~= kolakoski_expansion(text@, 1));
        assert(text@ =~= kolakoski_word(0));
    }
    let mut round: u8 = 0;
    while round < k
        invariant
            round <= k,
            1 <= source < current_size,
            current_size == text.len(),
            text@ == kolakoski_word(round as nat),
            text@ == kolakoski_expansion(text@, source as int),
            text@.last() == kolakoski_symbol(source - 1),
            forall|i: int| 0 <= i < text.len() ==> #[trigger] text[i] == CHR_1 || text[i] == CHR_2,
        decreases k - round,
    {
        let ghost word = text@;
        loop
            invariant_except_break
                source < current_size,
            invariant
                1 <= source <= current_size,
                current_size == word.len(),
                current_size <= text.len(),
                word == kolakoski_word(round as nat),
                forall|i: int| 0 <= i < word.len() ==> word[i] == text[i],
                text@ == kolakoski_expansion(text@, source as int),
                text@.last() == kolakoski_symbol(source - 1),
                forall|i: int| 0 <= i < text.len() ==> #[trigger] text[i] == CHR_1 || text[i] == CHR_2,
            ensures
                source == current_size,
                source < text.len(),
            decreases current_size - source,
        {
            let ghost before = text@;
            let current_symbol = if text[text.len() - 1] == CHR_1 {
                CHR_2
            } else {
                CHR_1
            };
            assert(current_symbol == kolakoski_symbol(source as int));
            if text[source] == CHR_1 {
                text.push(current_symbol);
            }
            if text[source] == CHR_2 {
                text.push(current_symbol);
                text.push(current_symbol);
            }
            proof {
                lemma_kolakoski_stable(before, text@, source as int);
                assert(text@ =~= kolakoski_expansion(text@, source + 1));
            }
            source += 1;
            if source == current_size {
                break ;
            }
        }
        proof {
            lemma_kolakoski_stable(word, text@, source as int);
        }
        current_size = text.len();
        round += 1;
    }
    text
}

/// What the paperfolding morphism turns a letter into.
pub open spec fn paperfolding_image(c: u8) -> (u8, u8) {
    if c == CHR_D {
        (CHR_D, CHR_B)
    } else if c == CHR_B {
        (CHR_C, CHR_B)
    } else if c == CHR_C {
        (CHR_D, CHR_A)
    } else {
        (CHR_C, CHR_A)
    }
}

/// `s` is a prefix of the fixed point of the paperfolding morphism that
/// starts with `d`: the letters at `2m` and `2m + 1` are the image of the
/// letter at `m`.
pub open spec fn is_paperfolding(s: Seq<u8>) -> bool {
    &&& s.len() >= 1
    &&& s[0] == CHR_D
    &&& forall|m: int|
        0 <= m && 2 * m + 1 < s.len() ==> #[trigger] paperfolding_image(s[m]) == (
            s[2 * m],
            s[2 * m + 1],
        )
}

fn paperfolding_letters(c: u8) -> (image: (u8, u8))
    ensures
        image == paperfolding_image(c),
{
    if c == CHR_D {
        (CHR_D, CHR_B)
    } else if c == CHR_B {
        (CHR_C, CHR_B)
    } else if c == CHR_C {
        (CHR_D, CHR_A)
    } else {
        (CHR_C, CHR_A)
    }
}

/// The paperfolding sequence of `2^(i - 1)` letters over the alphabet `a`,
/// `b`, `c`, `d`, each of which stands for two binary digits.
pub fn paperfolding(i: u8) -> (text: Vec<u8>)
    requires
        i >= 1,
        pow2((i - 1) as nat) <= usize::MAX,
    ensures
        is_paperfolding(text@),
        text@.len() == pow2((i - 1) as nat),
{
    let mut text: Vec<u8> = Vec::new();
    text.push(CHR_D);
    proof {
        vstd::arithmetic::power2::lemma2_to64();
    }
    if i == 1 {
        return text;
    }
    let n = two_to(i - 1);
    proof {
        lemma_pow2_unfold((i - 1) as nat);
        vstd::arithmetic::power2::lemma_pow2_pos((i - 2) as nat);
    }
    text.push(CHR_B);
    let mut k: usize = 1;
    while text.len() < n
        invariant
            n % 2 == 0,
            1 <= k,
            text.len() == 2 * k,
            text.len() <= n,
            text[0] == CHR_D,
            text[1] == CHR_B,
            forall|m: int|
                1 <= m < k ==> #[trigger] paperfolding_image(text[m]) == (
                    text[2 * m],
                    text[2 * m + 1],
                ),
        decreases n - text.len(),
    {
        let image = paperfolding_letters(text[k]);
        text.push(image.0);
        text.push(image.1);
        k += 1;
    }
    proof {
        assert forall|m: int| 0 <= m && 2 * m + 1 < text.len() implies #[trigger] paperfolding_image(
            text[m],
        ) == (text[2 * m], text[2 * m + 1]) by {
            if m >= 1 {
                assert(m < k);
            }
        }
    }
    text
}

pub const CHR_ZERO: u8 = 0x30;

pub const CHR_ONE: u8 = 0x31;

/// The two binary digits that a letter of the paperfolding alphabet stands
/// for: `00` for `a`, `01` for `b`, `10` for `c`, `11` for `d`.
pub open spec fn binary_digits(c: u8) -> (u8, u8) {
    if c == CHR_D {
        (CHR_ONE, CHR_ONE)
    } else if c == CHR_B {
        (CHR_ZERO, CHR_ONE)
    } else if c == CHR_C {
        (CHR_ONE, CHR_ZERO)
    } else {
        (CHR_ZERO, CHR_ZERO)
    }
}

/// Writes a word over the alphabet `a`, `b`, `c`, `d` with two binary
/// digits for each letter.
pub fn to_binary(text: &[u8]) -> (output: Vec<u8>)
    requires
        forall|i: int|
            0 <= i < text.len() ==> #[trigger] text[i] == CHR_A || text[i] == CHR_B || text[i]
                == CHR_C || text[i] == CHR_D,
    ensures
        output@.len() == 2 * text.len(),
        forall|i: int|
            0 <= i < text.len() ==> #[trigger] binary_digits(text[i]) == (
                output[2 * i],
                output[2 * i + 1],
            ),
{
    let mut output: Vec<u8> = Vec::new();
    let mut i: usize = 0;
    while i < text.len()
        invariant
            i <= text.len(),
            output.len() == 2 * i,
            forall|k: int|
                0 <= k < i ==> #[trigger] binary_digits(text[k]) == (
                    output[2 * k],
                    output[2 * k + 1],
                ),
        decreases text.len() - i,
    {
        let c = text[i];
        if c == CHR_D {
            output.push(CHR_ONE);
            output.push(CHR_ONE);
        } else if c == CHR_B {
            output.push(CHR_ZERO);
            output.push(CHR_ONE);
        } else if c == CHR_C {
            output.push(CHR_ONE);
            output.push(CHR_ZERO);
        } else {
            output.push(CHR_ZERO);
            output.push(CHR_ZERO);
        }
        i += 1;
    }
    output
}

} // verus!
