//! Borders and periods of a text.

use crate::text::{agree, same_at};
use vstd::prelude::*;

verus! {

/// The first `l` bytes of `t` are also the last `l` bytes of its prefix of
/// length `i`, and `l < i`.
pub open spec fn is_border(t: Seq<u8>, i: int, l: int) -> bool {
    0 <= l < i && agree(t, 0, i - l, l)
}

/// `l` is the length of the longest border of the prefix of length `i`.
pub open spec fn is_longest_border(t: Seq<u8>, i: int, l: int) -> bool {
    is_border(t, i, l) && forall|m: int| l < m < i ==> !#[trigger] is_border(t, i, m)
}

/// `border` has an entry for every prefix of `t`: a 0 for the empty prefix,
/// and the length of its longest border for every other.
pub open spec fn is_border_array(border: Seq<usize>, t: Seq<u8>) -> bool {
    &&& border.len() == t.len() + 1
    &&& border[0] == 0
    &&& forall|i: int| 1 <= i <= t.len() ==> #[trigger] is_longest_border(t, i, border[i] as int)
}

/// A border of a border is a border.
proof fn lemma_border_of_border(t: Seq<u8>, i: int, l: int, m: int)
    requires
        i <= t.len(),
        is_border(t, i, l),
        is_border(t, l, m),
    ensures
        is_border(t, i, m),
{
    assert forall|x: int| 0 <= x < m implies #[trigger] same_at(t, 0, i - m, x) by {
        assert(same_at(t, 0, l - m, x));
        assert(same_at(t, 0, i - l, l - m + x));
    }
}

/// Of two borders, the shorter is a border of the longer.
proof fn lemma_border_in_border(t: Seq<u8>, i: int, l: int, b: int)
    requires
        i <= t.len(),
        is_border(t, i, l),
        is_border(t, i, b),
        b < l,
    ensures
        is_border(t, l, b),
{
    assert forall|x: int| 0 <= x < b implies #[trigger] same_at(t, 0, l - b, x) by {
        assert(same_at(t, 0, i - b, x));
        assert(same_at(t, 0, i - l, l - b + x));
    }
}

/// A border of the prefix of length `i + 1` is a border of the prefix of
/// length `i`, extended by a byte that equals the byte at `i`.
proof fn lemma_border_shrinks(t: Seq<u8>, i: int, m: int)
    requires
        0 <= i < t.len(),
        is_border(t, i + 1, m),
        m >= 1,
    ensures
        is_border(t, i, m - 1),
        t[m - 1] == t[i],
{
    assert forall|x: int| 0 <= x < m - 1 implies #[trigger] same_at(t, 0, i - (m - 1), x) by {
        assert(same_at(t, 0, (i + 1) - m, x));
    }
    assert(same_at(t, 0, (i + 1) - m, m - 1));
}

/// The border array of `text`: entry `i` is the length of the longest proper
/// prefix of the first `i` bytes that is also a suffix of them.
pub fn border_array(text: &[u8]) -> (border: Vec<usize>)
    requires
        text.len() < usize::MAX,
    ensures
        is_border_array(border@, text@),
{
    let n = text.len();
    let mut border: Vec<usize> = Vec::new();
    border.push(0);
    let mut i: usize = 0;
    // while the array is built, every entry but the first is one too large
    while i < n
        invariant
            n == text.len(),
            n < usize::MAX,
            i <= n,
            border.len() == i + 1,
            border[0] == 0,
            forall|k: int|
                1 <= k <= i ==> 1 <= #[trigger] border[k] && is_longest_border(
                    text@,
                    k,
                    border[k] - 1,
                ),
        decreases n - i,
    {
        let mut length = border[i];
        while length > 0 && text[length - 1] != text[i]
            invariant
                n == text.len(),
                i < n,
                border.len() == i + 1,
                border[0] == 0,
                forall|k: int|
                    1 <= k <= i ==> 1 <= #[trigger] border[k] && is_longest_border(
                        text@,
                        k,
                        border[k] - 1,
                    ),
                0 <= length <= i,
                length > 0 ==> is_border(text@, i as int, length - 1),
                forall|b: int|
                    length - 1 < b < i && #[trigger] is_border(text@, i as int, b) ==> text[b]
                        != text[i as int],
            decreases length,
        {
            let ghost l = length - 1;
            proof {
                if l >= 1 {
                    assert(is_longest_border(text@, l, border[l] - 1));
                    lemma_border_of_border(text@, i as int, l, border[l] - 1);
                }
                assert forall|b: int|
                    border[l] - 1 < b < i && #[trigger] is_border(text@, i as int, b) implies text[b]
                    != text[i as int] by {
                    if b < l {
                        lemma_border_in_border(text@, i as int, l, b);
                    }
                }
            }
            length = border[length - 1];
        }
        proof {
            assert(is_border(text@, i + 1, length as int)) by {
                assert forall|x: int| 0 <= x < length implies #[trigger] same_at(
                    text@,
                    0,
                    i + 1 - length,
                    x,
                ) by {
                    if x < length - 1 {
                        assert(same_at(text@, 0, i - (length - 1), x));
                    }
                }
            }
            assert forall|m: int| length < m < i + 1 implies !#[trigger] is_border(
                text@,
                i + 1,
                m,
            ) by {
                if is_border(text@, i + 1, m) {
                    lemma_border_shrinks(text@, i as int, m);
                }
            }
        }
        border.push(length + 1);
        i += 1;
    }
    let mut k: usize = 1;
    while k < border.len()
        invariant
            n == text.len(),
            border.len() == n + 1,
            1 <= k <= n + 1,
            border[0] == 0,
            forall|m: int| 1 <= m < k ==> #[trigger] is_longest_border(text@, m, border[m] as int),
            forall|m: int|
                k <= m <= n ==> 1 <= #[trigger] border[m] && is_longest_border(
                    text@,
                    m,
                    border[m] - 1,
                ),
        decreases n + 1 - k,
    {
        let entry = border[k];
        border[k] = entry - 1;
        k += 1;
    }
    border
}

/// The smallest period of a text, read off the last entry of its border
/// array.
pub fn smallest_period(border_array: &[usize]) -> (period: usize)
    requires
        border_array.len() >= 1,
        border_array[border_array.len() - 1] <= border_array.len() - 1,
    ensures
        period == border_array.len() - 1 - border_array[border_array.len() - 1],
{
    let n = border_array.len() - 1;
    n - border_array[n]
}

/// Every byte of `t` recurs `p` positions later, as far as the text goes.
pub open spec fn is_period(t: Seq<u8>, p: int) -> bool {
    1 <= p <= t.len() && agree(t, 0, p, t.len() - p)
}

/// What `smallest_period` returns for the border array of a text is a period
/// of the text, and no smaller number is one.
pub proof fn lemma_smallest_period(t: Seq<u8>, border: Seq<usize>)
    requires
        t.len() >= 1,
        is_border_array(border, t),
    ensures
        is_period(t, t.len() - border[t.len() as int]),
        forall|q: int| 1 <= q < t.len() - border[t.len() as int] ==> !#[trigger] is_period(t, q),
{
    let n = t.len() as int;
    assert(is_longest_border(t, n, border[n] as int));
    assert forall|q: int| 1 <= q < n - border[n] implies !#[trigger] is_period(t, q) by {
        if is_period(t, q) {
            assert(is_border(t, n, n - q));
        }
    }
}

/// The text is a shorter string written two or more times.
pub open spec fn is_power(t: Seq<u8>) -> bool {
    exists|d: int| 1 <= d < t.len() && (t.len() as int) % d == 0 && #[trigger] is_period(t, d)
}

/// The difference of two periods that together are no longer than the text
/// is a period.
proof fn lemma_period_difference(t: Seq<u8>, p: int, d: int)
    requires
        is_period(t, p),
        is_period(t, d),
        p < d,
        p + d <= t.len(),
    ensures
        is_period(t, d - p),
{
    let n = t.len() as int;
    assert forall|x: int| 0 <= x < n - (d - p) implies #[trigger] same_at(t, 0, d - p, x) by {
        if x + d < n {
            assert(same_at(t, 0, d, x));
            assert(same_at(t, 0, p, x + d - p));
        } else {
            assert(same_at(t, 0, p, x - p));
            assert(same_at(t, 0, d, x - p));
        }
    }
}

/// Of two periods that together are no longer than the text, the smaller
/// divides the larger, or what is left of the division is a period.
proof fn lemma_period_remainder(t: Seq<u8>, p: int, d: int)
    requires
        is_period(t, p),
        is_period(t, d),
        p <= d,
        p + d <= t.len(),
    ensures
        d % p == 0 || is_period(t, d % p),
    decreases d,
{
    if d == p {
        assert(d % p == 0) by (nonlinear_arith)
            requires
                d == p,
                p >= 1,
        ;
    } else {
        lemma_period_difference(t, p, d);
        let e = d - p;
        assert(e % p == d % p) by (nonlinear_arith)
            requires
                e == d - p,
                p >= 1,
                d > p,
        ;
        if e >= p {
            lemma_period_remainder(t, p, e);
        } else {
            assert(e % p == e) by (nonlinear_arith)
                requires
                    0 <= e < p,
            ;
        }
    }
}

/// A text is a power exactly if its smallest period is shorter than the text
/// and divides its length.
pub proof fn lemma_power_by_period(t: Seq<u8>, border: Seq<usize>)
    requires
        is_border_array(border, t),
    ensures
        is_power(t) <==> border[t.len() as int] != 0 && (t.len() as int) % (t.len()
            - border[t.len() as int]) == 0,
{
    let n = t.len() as int;
    if n >= 1 {
        lemma_smallest_period(t, border);
        assert(is_longest_border(t, n, border[n] as int));
        let p = n - border[n];
        if is_power(t) {
            let d = choose|d: int| 1 <= d < n && n % d == 0 && #[trigger] is_period(t, d);
            assert(p <= d) by {
                if d < p {
                    assert(!is_period(t, d));
                }
            }
            assert(2 * d <= n) by (nonlinear_arith)
                requires
                    1 <= d < n,
                    n % d == 0,
            ;
            lemma_period_remainder(t, p, d);
            let r = d % p;
            assert(0 <= r < p) by (nonlinear_arith)
                requires
                    r == d % p,
                    p >= 1,
            ;
            if r != 0 {
                assert(!is_period(t, r));
            }
            vstd::arithmetic::div_mod::lemma_fundamental_div_mod(n, d);
            vstd::arithmetic::div_mod::lemma_fundamental_div_mod(d, p);
            let a = n / d;
            let b = d / p;
            assert(n == (b * a) * p) by (nonlinear_arith)
                requires
                    n == d * a,
                    d == p * b,
            ;
            vstd::arithmetic::div_mod::lemma_mod_multiples_basic(b * a, p);
        }
        if border[n] != 0 && n % p == 0 {
            assert(is_period(t, p));
        }
    } else {
        assert(border[0] == 0);
    }
}

/// A text is primitive if it is not a shorter string written two or more
/// times: its smallest period is its length, or does not divide its length.
pub fn is_primitive(text: &[u8]) -> (primitive: bool)
    requires
        text.len() < usize::MAX,
    ensures
        primitive == !is_power(text@),
{
    let border = border_array(text);
    proof {
        if text.len() >= 1 {
            assert(is_longest_border(text@, text.len() as int, border[text.len() as int] as int));
        }
        lemma_power_by_period(text@, border@);
    }
    let period = smallest_period(border.as_slice());
    if period == text.len() {
        return true;
    }
    (text.len() % smallest_period(border.as_slice())) != 0
}

/// A text has one border array only.
pub proof fn lemma_border_array_unique(t: Seq<u8>, first: Seq<usize>, second: Seq<usize>)
    requires
        is_border_array(first, t),
        is_border_array(second, t),
    ensures
        first == second,
{
    assert forall|i: int| 0 <= i <= t.len() implies first[i] == second[i] by {
        if i >= 1 {
            assert(is_longest_border(t, i, first[i] as int));
            assert(is_longest_border(t, i, second[i] as int));
        }
    }
    assert(first =~= second);
}

} // verus!
