//! The bijective Burrows-Wheeler transform, by sorting the rotations of all
//! Lyndon factors of the text.

use crate::lyndon::{duval, factor_begin, is_lyndon_ends, lemma_lyndon_ends_unique};
use crate::sorted::{is_listing, is_strict_weak_order, lemma_sorted_listings_agree};
use std::cmp::Ordering;
use vstd::arithmetic::div_mod::{
    lemma_fundamental_div_mod, lemma_mod_multiples_vanish, lemma_mod_pos_bound,
};
use vstd::prelude::*;

verus! {

/// One rotation of one Lyndon factor: the factor covers the text from
/// `lyndon_start` to `lyndon_end`, and the rotation starts `index` bytes into
/// it.
#[derive(Debug, Clone, Copy, PartialEq, Eq, Structural)]
pub struct Conjugate {
    pub index: usize,
    pub lyndon_start: usize,
    pub lyndon_end: usize,
}

/// The length of the factor that the rotation belongs to.
pub open spec fn conjugate_len(c: Conjugate) -> int {
    1 + c.lyndon_end - c.lyndon_start
}

/// The text position where the rotation starts.
pub open spec fn conjugate_pos(c: Conjugate) -> int {
    c.lyndon_start + c.index
}

/// The text position of the byte that stands before the rotation's start in
/// its factor, wrapped round.
pub open spec fn conjugate_pred(c: Conjugate) -> int {
    if c.index == 0 {
        c.lyndon_end as int
    } else {
        c.lyndon_start + c.index - 1
    }
}

/// The factor lies inside the text and the rotation inside the factor.
pub open spec fn conjugate_fits(t: Seq<u8>, c: Conjugate) -> bool {
    c.lyndon_start <= c.lyndon_end < t.len() && c.index <= c.lyndon_end - c.lyndon_start
}

/// The byte at offset `x` of the rotation, repeated without end.
pub open spec fn conjugate_byte(t: Seq<u8>, c: Conjugate, x: int) -> u8 {
    t[c.lyndon_start + (c.index + x) % conjugate_len(c)]
}

/// The two rotations hold the same byte at offset `x`.
pub open spec fn conjugates_same_at(t: Seq<u8>, a: Conjugate, b: Conjugate, x: int) -> bool {
    conjugate_byte(t, a, x) == conjugate_byte(t, b, x)
}

/// The two rotations agree in their first `m` bytes.
pub open spec fn conjugates_agree(t: Seq<u8>, a: Conjugate, b: Conjugate, m: int) -> bool {
    forall|x: int| 0 <= x < m ==> #[trigger] conjugates_same_at(t, a, b, x)
}

/// Within as many bytes as the product of the two factor lengths, the
/// rotation `a` differs from `b`, and first by a smaller byte.
pub open spec fn conjugate_lt(t: Seq<u8>, a: Conjugate, b: Conjugate) -> bool {
    exists|x: int|
        0 <= x < conjugate_len(a) * conjugate_len(b) && #[trigger] conjugates_agree(t, a, b, x)
            && conjugate_byte(t, a, x) < conjugate_byte(t, b, x)
}

/// The comparison of any two rotations stays inside the machine's integers.
pub open spec fn conjugates_comparable(t: Seq<u8>) -> bool {
    t.len() * t.len() + t.len() <= usize::MAX
}

/// Whether the rotations of the Lyndon factors of `text` can be compared on
/// this machine.
pub fn fits_comparison(text: &[u8]) -> (fits: bool)
    ensures
        fits == conjugates_comparable(text@),
{
    let n = text.len();
    match n.checked_mul(n) {
        Some(square) => square <= usize::MAX - n,
        None => false,
    }
}

proof fn lemma_conjugates_decided(t: Seq<u8>, a: Conjugate, b: Conjugate, x: int)
    requires
        0 <= x < conjugate_len(a) * conjugate_len(b),
        conjugates_agree(t, a, b, x),
        !conjugates_same_at(t, a, b, x),
    ensures
        conjugate_lt(t, a, b) == (conjugate_byte(t, a, x) < conjugate_byte(t, b, x)),
        conjugate_lt(t, b, a) == (conjugate_byte(t, b, x) < conjugate_byte(t, a, x)),
{
    assert forall|y: int| 0 <= y < x implies #[trigger] conjugates_same_at(t, b, a, y) by {
        assert(conjugates_same_at(t, a, b, y));
    }
    assert(conjugates_agree(t, b, a, x));
    assert(conjugate_len(b) * conjugate_len(a) == conjugate_len(a) * conjugate_len(b))
        by (nonlinear_arith);
    assert forall|y: int|
        0 <= y && #[trigger] conjugates_agree(t, a, b, y) && conjugate_byte(t, a, y)
            < conjugate_byte(t, b, y) implies y == x by {
        if y < x {
            assert(conjugates_same_at(t, a, b, y));
        } else if y > x {
            assert(conjugates_same_at(t, a, b, x));
        }
    }
    assert forall|y: int|
        0 <= y && #[trigger] conjugates_agree(t, b, a, y) && conjugate_byte(t, b, y)
            < conjugate_byte(t, a, y) implies y == x by {
        if y < x {
            assert(conjugates_same_at(t, a, b, y));
        } else if y > x {
            assert(conjugates_same_at(t, b, a, x));
        }
    }
}

proof fn lemma_conjugates_same(t: Seq<u8>, a: Conjugate, b: Conjugate)
    requires
        conjugates_agree(t, a, b, conjugate_len(a) * conjugate_len(b)),
    ensures
        !conjugate_lt(t, a, b),
        !conjugate_lt(t, b, a),
{
    assert forall|y: int|
        0 <= y < conjugate_len(a) * conjugate_len(b) && #[trigger] conjugates_agree(t, a, b, y)
        implies !(conjugate_byte(t, a, y) < conjugate_byte(t, b, y)) by {
        assert(conjugates_same_at(t, a, b, y));
    }
    assert forall|y: int|
        0 <= y < conjugate_len(b) * conjugate_len(a) && #[trigger] conjugates_agree(t, b, a, y)
        implies !(conjugate_byte(t, b, y) < conjugate_byte(t, a, y)) by {
        assert(conjugate_len(b) * conjugate_len(a) == conjugate_len(a) * conjugate_len(b))
            by (nonlinear_arith);
        assert(conjugates_same_at(t, a, b, y));
    }
}

proof fn lemma_product_bound(x: int, y: int, n: int)
    by (nonlinear_arith)
    requires
        0 <= x <= n,
        0 <= y <= n,
    ensures
        x * y <= n * n,
{
}

/// The two rotations agree in their first `m` bytes.
pub open spec fn conjugates_agree_upto(t: Seq<u8>, a: Conjugate, b: Conjugate, m: usize) -> bool {
    conjugates_agree(t, a, b, m as int)
}

proof fn lemma_conjugate_bound(t: Seq<u8>, a: Conjugate, b: Conjugate)
    requires
        conjugate_fits(t, a),
        conjugate_fits(t, b),
    ensures
        conjugate_len(a) * conjugate_len(b) <= t.len() * t.len(),
        conjugates_agree_upto(t, a, b, 0),
{
    lemma_product_bound(conjugate_len(a), conjugate_len(b), t.len() as int);
}

proof fn lemma_conjugates_step(t: Seq<u8>, a: Conjugate, b: Conjugate, x: usize)
    requires
        x < conjugate_len(a) * conjugate_len(b),
        conjugates_agree_upto(t, a, b, x),
    ensures
        conjugates_same_at(t, a, b, x as int) ==> conjugates_agree_upto(t, a, b, (x + 1) as usize),
        !conjugates_same_at(t, a, b, x as int) ==> conjugate_lt(t, a, b) == (conjugate_byte(
            t,
            a,
            x as int,
        ) < conjugate_byte(t, b, x as int)) && conjugate_lt(t, b, a) == (conjugate_byte(
            t,
            b,
            x as int,
        ) < conjugate_byte(t, a, x as int)),
{
    if !conjugates_same_at(t, a, b, x as int) {
        lemma_conjugates_decided(t, a, b, x as int);
    }
}

proof fn lemma_conjugates_end(t: Seq<u8>, a: Conjugate, b: Conjugate, x: usize)
    requires
        x == conjugate_len(a) * conjugate_len(b),
        conjugates_agree_upto(t, a, b, x),
    ensures
        !conjugate_lt(t, a, b),
        !conjugate_lt(t, b, a),
{
    lemma_conjugates_same(t, a, b);
}

/// The bytes that the comparison reads at offset `x`.
pub open spec fn compared_bytes(t: Seq<u8>, a: Conjugate, b: Conjugate, x: usize) -> (u8, u8) {
    (conjugate_byte(t, a, x as int), conjugate_byte(t, b, x as int))
}

/// Compares two rotations byte by byte, each repeated as often as needed, up
/// to the product of the lengths of their factors.
pub fn compare_conjugates(text: &[u8], a: &Conjugate, b: &Conjugate) -> (order: Ordering)
    requires
        conjugate_fits(text@, *a),
        conjugate_fits(text@, *b),
        conjugates_comparable(text@),
    ensures
        (order == Ordering::Less) == conjugate_lt(text@, *a, *b),
        (order == Ordering::Greater) == conjugate_lt(text@, *b, *a),
{
    let mut len: usize = 0;
    let alen = 1 + a.lyndon_end - a.lyndon_start;
    let blen = 1 + b.lyndon_end - b.lyndon_start;
    proof {
        lemma_conjugate_bound(text@, *a, *b);
    }
    let bound = alen * blen;
    while len < bound
        invariant
            conjugate_fits(text@, *a),
            conjugate_fits(text@, *b),
            conjugates_comparable(text@),
            alen == conjugate_len(*a),
            blen == conjugate_len(*b),
            bound == alen * blen,
            bound <= text@.len() * text@.len(),
            len <= bound,
            conjugates_agree_upto(text@, *a, *b, len),
        decreases bound - len,
    {
        let char_a = text[a.lyndon_start + ((a.index + len) % alen)];
        let char_b = text[b.lyndon_start + ((b.index + len) % blen)];
        proof {
            assert(compared_bytes(text@, *a, *b, len) == (char_a, char_b));
            lemma_conjugates_step(text@, *a, *b, len);
        }
        if char_a != char_b {
            if char_a < char_b {
                return Ordering::Less;
            } else {
                return Ordering::Greater;
            }
        }
        len += 1;
    }
    proof {
        lemma_conjugates_end(text@, *a, *b, len);
    }
    Ordering::Equal
}

/// The rotation at index `i` comes before the one at index `j`: it is the
/// smaller one, or the two compare equal and it starts earlier in the text.
pub open spec fn conjugate_ranked(t: Seq<u8>, sorted: Seq<Conjugate>, i: int, j: int) -> bool {
    conjugate_lt(t, sorted[i], sorted[j]) || (!conjugate_lt(t, sorted[j], sorted[i])
        && conjugate_pos(sorted[i]) < conjugate_pos(sorted[j]))
}

/// The entry for text position `p` is the rotation that starts there, of the
/// Lyndon factor that covers `p`.
pub open spec fn conjugate_at(ends: Seq<usize>, list: Seq<Conjugate>, p: int) -> bool {
    exists|x: int|
        0 <= x < ends.len() && factor_begin(ends, x) <= p <= #[trigger] ends[x]
            && list[p].lyndon_start == factor_begin(ends, x) && list[p].lyndon_end == ends[x]
            && list[p].index == p - factor_begin(ends, x)
}

/// `list` holds, by text position, every rotation of every Lyndon factor.
pub open spec fn is_conjugate_list(t: Seq<u8>, ends: Seq<usize>, list: Seq<Conjugate>) -> bool {
    &&& list.len() == t.len()
    &&& forall|p: int| 0 <= p < t.len() ==> #[trigger] conjugate_at(ends, list, p)
}

/// Every entry fits the text and stands at the index of its text position.
pub open spec fn is_text_ordered(t: Seq<u8>, list: Seq<Conjugate>) -> bool {
    &&& list.len() == t.len()
    &&& forall|p: int|
        0 <= p < list.len() ==> conjugate_fits(t, #[trigger] list[p]) && conjugate_pos(list[p]) == p
}

/// Some rotation in `sorted` starts at text position `p`.
pub open spec fn has_conjugate(sorted: Seq<Conjugate>, p: int) -> bool {
    exists|i: int| 0 <= i < sorted.len() && conjugate_pos(#[trigger] sorted[i]) == p
}

/// `sorted` holds the rotations of `list`, each once, the smaller before the
/// larger, and those that compare equal by increasing text position.
pub open spec fn is_conjugate_order(t: Seq<u8>, list: Seq<Conjugate>, sorted: Seq<Conjugate>) -> bool {
    &&& sorted.len() == list.len()
    &&& forall|i: int|
        0 <= i < sorted.len() ==> 0 <= conjugate_pos(#[trigger] sorted[i]) < list.len()
            && sorted[i] == list[conjugate_pos(sorted[i])]
    &&& forall|p: int| 0 <= p < list.len() ==> #[trigger] has_conjugate(sorted, p)
    &&& forall|i: int, j: int| 0 <= i < j < sorted.len() ==> #[trigger] conjugate_ranked(t, sorted, i, j)
}

/// `sort_by` of std on a vector of rotations, with `compare_conjugates` as
/// the order: the sort keeps every element, puts smaller before larger, and
/// leaves elements that compare equal in the order they came in, which is by
/// text position.
#[verifier::external_body]
fn sort_conjugates(conjugates: &mut Vec<Conjugate>, text: &[u8])
    requires
        is_text_ordered(text@, old(conjugates)@),
        conjugates_comparable(text@),
    ensures
        is_conjugate_order(text@, old(conjugates)@, final(conjugates)@),
{
    conjugates.sort_by(|a, b| compare_conjugates(text, a, b));
}

/// The byte of `t` before the start of each rotation, inside its factor.
pub open spec fn bbwt_by_order(t: Seq<u8>, sorted: Seq<Conjugate>) -> Seq<u8> {
    Seq::new(t.len(), |i: int| t[conjugate_pred(sorted[i])])
}

/// `bbwt` is the bijective Burrows-Wheeler transform of `t`: the rotations
/// of all Lyndon factors are sorted, and each gives the byte that stands
/// before its start in its factor.
pub open spec fn is_bbwt_of(t: Seq<u8>, bbwt: Seq<u8>) -> bool {
    exists|ends: Seq<usize>, list: Seq<Conjugate>, sorted: Seq<Conjugate>|
        #![trigger is_conjugate_list(t, ends, list), is_conjugate_order(t, list, sorted)]
        {
            &&& is_lyndon_ends(t, ends)
            &&& is_conjugate_list(t, ends, list)
            &&& is_conjugate_order(t, list, sorted)
            &&& bbwt == bbwt_by_order(t, sorted)
        }
}

/// The bijective Burrows-Wheeler transform, computed by sorting all
/// rotations of all Lyndon factors with byte-by-byte comparisons.
pub fn bbwt_naive(text: &[u8]) -> (bbwt: Vec<u8>)
    requires
        text.len() > 0,
        conjugates_comparable(text@),
    ensures
        is_bbwt_of(text@, bbwt@),
{
    let n = text.len();
    let factors = duval(text);
    let mut conjugates: Vec<Conjugate> = Vec::new();
    let mut factor: usize = 0;
    while factor < factors.len()
        invariant
            n == text.len(),
            is_lyndon_ends(text@, factors@),
            factor <= factors.len(),
            conjugates.len() == factor_begin(factors@, factor as int),
            factor < factors.len() ==> conjugates.len() <= factors[factor as int],
            forall|p: int| 0 <= p < conjugates.len() ==> #[trigger] conjugate_at(factors@, conjugates@, p),
            forall|p: int|
                0 <= p < conjugates.len() ==> conjugate_fits(text@, #[trigger] conjugates[p])
                    && conjugate_pos(conjugates[p]) == p,
        decreases factors.len() - factor,
    {
        let start = conjugates.len();
        let end = factors[factor];
        proof {
            if factor < factors.len() - 1 {
                assert(factors[factor as int] < factors[factors.len() - 1]);
            }
        }
        let mut j: usize = start;
        while j < end + 1
            invariant
                n == text.len(),
                is_lyndon_ends(text@, factors@),
                factor < factors.len(),
                start == factor_begin(factors@, factor as int),
                end == factors[factor as int],
                end < n,
                start <= j <= end + 1,
                conjugates.len() == j,
                forall|p: int| 0 <= p < conjugates.len() ==> #[trigger] conjugate_at(factors@, conjugates@, p),
                forall|p: int|
                    0 <= p < conjugates.len() ==> conjugate_fits(text@, #[trigger] conjugates[p])
                        && conjugate_pos(conjugates[p]) == p,
            decreases end + 1 - j,
        {
            let ghost before = conjugates@;
            conjugates.push(Conjugate { index: j - start, lyndon_start: start, lyndon_end: end });
            proof {
                assert forall|p: int| 0 <= p < conjugates.len() implies #[trigger] conjugate_at(
                    factors@,
                    conjugates@,
                    p,
                ) by {
                    if p < j {
                        assert(conjugate_at(factors@, before, p));
                        let x = choose|x: int|
                            0 <= x < factors.len() && factor_begin(factors@, x) <= p
                                <= #[trigger] factors[x] && before[p].lyndon_start == factor_begin(
                                factors@,
                                x,
                            ) && before[p].lyndon_end == factors[x] && before[p].index == p
                                - factor_begin(factors@, x);
                        assert(factor_begin(factors@, x) <= p <= factors[x]);
                    } else {
                        assert(factor_begin(factors@, factor as int) <= p <= factors[factor as int]);
                    }
                }
            }
            j += 1;
        }
        factor += 1;
        proof {
            if factor < factors.len() {
                assert(factors[factor - 1] < factors[factor as int]);
            }
        }
    }
    let ghost list = conjugates@;
    sort_conjugates(&mut conjugates, text);
    let mut bbwt: Vec<u8> = vec![text[0]; n];
    let mut i: usize = 0;
    while i < n
        invariant
            n == text.len(),
            list.len() == n,
            bbwt.len() == n,
            i <= n,
            is_text_ordered(text@, list),
            is_conjugate_order(text@, list, conjugates@),
            forall|k: int| 0 <= k < i ==> #[trigger] bbwt[k] == text[conjugate_pred(conjugates[k])],
        decreases n - i,
    {
        let entry = conjugates[i];
        assert(conjugate_fits(text@, list[conjugate_pos(entry)]));
        let position = if entry.index == 0 {
            entry.lyndon_end
        } else {
            entry.lyndon_start + entry.index - 1
        };
        bbwt[i] = text[position];
        i += 1;
    }
    proof {
        assert(bbwt@ =~= bbwt_by_order(text@, conjugates@));
        assert(is_conjugate_list(text@, factors@, list));
    }
    bbwt
}

/// The bytes of a rotation come again after every multiple of the length of
/// its factor.
proof fn lemma_conjugate_period(t: Seq<u8>, c: Conjugate, x: int, k: int)
    requires
        conjugate_len(c) >= 1,
    ensures
        conjugate_byte(t, c, x + k * conjugate_len(c)) == conjugate_byte(t, c, x),
{
    let m = conjugate_len(c);
    lemma_mod_multiples_vanish(k, c.index + x, m);
    assert(c.index + (x + k * m) == m * k + (c.index + x)) by (nonlinear_arith);
}

/// Two rotations that agree for as many bytes as the product of the lengths
/// of their factors agree for ever.
proof fn lemma_conjugates_agree_on(t: Seq<u8>, a: Conjugate, b: Conjugate, x: int)
    requires
        conjugate_len(a) >= 1,
        conjugate_len(b) >= 1,
        conjugates_agree(t, a, b, conjugate_len(a) * conjugate_len(b)),
        0 <= x,
    ensures
        conjugates_same_at(t, a, b, x),
{
    let p = conjugate_len(a);
    let q = conjugate_len(b);
    let product = p * q;
    assert(product >= 1) by (nonlinear_arith)
        requires
            p >= 1,
            q >= 1,
            product == p * q,
    ;
    let r = x % product;
    let d = x / product;
    lemma_fundamental_div_mod(x, product);
    lemma_mod_pos_bound(x, product);
    assert(x == r + (d * q) * p && x == r + (d * p) * q) by (nonlinear_arith)
        requires
            x == product * d + r,
            product == p * q,
    ;
    lemma_conjugate_period(t, a, r, d * q);
    lemma_conjugate_period(t, b, r, d * p);
    assert(conjugates_same_at(t, a, b, r));
}

/// What decides between two ordered rotations: the offset at which they
/// first differ.
proof fn lemma_conjugates_ordered(t: Seq<u8>, a: Conjugate, b: Conjugate) -> (x: int)
    requires
        conjugate_lt(t, a, b),
    ensures
        0 <= x,
        conjugates_agree(t, a, b, x),
        conjugate_byte(t, a, x) < conjugate_byte(t, b, x),
{
    choose|x: int|
        0 <= x < conjugate_len(a) * conjugate_len(b) && #[trigger] conjugates_agree(t, a, b, x)
            && conjugate_byte(t, a, x) < conjugate_byte(t, b, x)
}

/// Two rotations that differ somewhere, and first by a smaller byte of the
/// one, are ordered.
proof fn lemma_conjugates_differ(t: Seq<u8>, a: Conjugate, b: Conjugate, x: int)
    requires
        conjugate_len(a) >= 1,
        conjugate_len(b) >= 1,
        0 <= x,
        conjugates_agree(t, a, b, x),
        conjugate_byte(t, a, x) < conjugate_byte(t, b, x),
    ensures
        conjugate_lt(t, a, b),
        !conjugate_lt(t, b, a),
{
    let product = conjugate_len(a) * conjugate_len(b);
    if x >= product {
        assert forall|y: int| 0 <= y < product implies #[trigger] conjugates_same_at(t, a, b, y) by {
            assert(conjugates_same_at(t, a, b, y));
        }
        lemma_conjugates_agree_on(t, a, b, x);
    }
    lemma_conjugates_decided(t, a, b, x);
}

/// Two rotations of which neither is smaller agree for ever.
proof fn lemma_conjugates_unordered(t: Seq<u8>, a: Conjugate, b: Conjugate, x: int)
    requires
        conjugate_len(a) >= 1,
        conjugate_len(b) >= 1,
        !conjugate_lt(t, a, b),
        !conjugate_lt(t, b, a),
        0 <= x,
    ensures
        conjugates_same_at(t, a, b, x),
    decreases x,
{
    if !conjugates_same_at(t, a, b, x) {
        assert forall|y: int| 0 <= y < x implies #[trigger] conjugates_same_at(t, a, b, y) by {
            lemma_conjugates_unordered(t, a, b, y);
        }
        assert forall|y: int| 0 <= y < x implies #[trigger] conjugates_same_at(t, b, a, y) by {
            assert(conjugates_same_at(t, a, b, y));
        }
        if conjugate_byte(t, a, x) < conjugate_byte(t, b, x) {
            lemma_conjugates_differ(t, a, b, x);
        } else {
            lemma_conjugates_differ(t, b, a, x);
        }
    }
}

/// Of three rotations of which the first is not larger than the second and
/// the second not larger than the third, with one of the two smaller than
/// the other, the first is smaller than the third.
proof fn lemma_conjugate_chain(t: Seq<u8>, a: Conjugate, b: Conjugate, c: Conjugate)
    requires
        conjugate_len(a) >= 1,
        conjugate_len(b) >= 1,
        conjugate_len(c) >= 1,
        !conjugate_lt(t, b, a),
        !conjugate_lt(t, c, b),
        conjugate_lt(t, a, b) || conjugate_lt(t, b, c),
    ensures
        conjugate_lt(t, a, c),
{
    if conjugate_lt(t, a, b) {
        let x = lemma_conjugates_ordered(t, a, b);
        if conjugate_lt(t, b, c) {
            let y = lemma_conjugates_ordered(t, b, c);
            let z = if x <= y { x } else { y };
            assert forall|i: int| 0 <= i < z implies #[trigger] conjugates_same_at(t, a, c, i) by {
                assert(conjugates_same_at(t, a, b, i));
                assert(conjugates_same_at(t, b, c, i));
            }
            if x < y {
                assert(conjugates_same_at(t, b, c, x));
            } else if y < x {
                assert(conjugates_same_at(t, a, b, y));
            }
            lemma_conjugates_differ(t, a, c, z);
        } else {
            assert forall|i: int| 0 <= i < x implies #[trigger] conjugates_same_at(t, a, c, i) by {
                assert(conjugates_same_at(t, a, b, i));
                lemma_conjugates_unordered(t, b, c, i);
            }
            lemma_conjugates_unordered(t, b, c, x);
            lemma_conjugates_differ(t, a, c, x);
        }
    } else {
        let y = lemma_conjugates_ordered(t, b, c);
        assert forall|i: int| 0 <= i < y implies #[trigger] conjugates_same_at(t, a, c, i) by {
            lemma_conjugates_unordered(t, a, b, i);
            assert(conjugates_same_at(t, b, c, i));
        }
        lemma_conjugates_unordered(t, a, b, y);
        lemma_conjugates_differ(t, a, c, y);
    }
}

/// The rotation of `list` that starts at text position `p` comes before the
/// one that starts at `q` when they are sorted.
pub open spec fn conjugate_rank_order(t: Seq<u8>, list: Seq<Conjugate>) -> spec_fn(int, int) -> bool {
    |p: int, q: int|
        conjugate_lt(t, list[p], list[q]) || (!conjugate_lt(t, list[q], list[p]) && p < q)
}

/// The rotations of the Lyndon factors are in a total order, ties broken by
/// the text position.
proof fn lemma_conjugate_rank_order(t: Seq<u8>, list: Seq<Conjugate>)
    requires
        is_text_ordered(t, list),
    ensures
        is_strict_weak_order(conjugate_rank_order(t, list), list.len() as int),
{
    let lt = conjugate_rank_order(t, list);
    let n = list.len() as int;
    assert forall|x: int| 0 <= x < n implies !#[trigger] lt(x, x) by {
        lemma_conjugate_asymmetric(t, list[x], list[x]);
    }
    assert forall|x: int, y: int, z: int|
        0 <= x < n && 0 <= y < n && 0 <= z < n && #[trigger] lt(x, y) && !#[trigger] lt(
            z,
            y,
        ) implies lt(x, z) by {
        lemma_conjugate_rank_chain(t, list, x, y, z);
    }
    assert forall|x: int, y: int, z: int|
        0 <= x < n && 0 <= y < n && 0 <= z < n && !#[trigger] lt(y, x) && #[trigger] lt(
            y,
            z,
        ) implies lt(x, z) by {
        lemma_conjugate_rank_chain(t, list, x, y, z);
    }
}

/// Of two rotations at most one is smaller than the other.
proof fn lemma_conjugate_asymmetric(t: Seq<u8>, a: Conjugate, b: Conjugate)
    requires
        conjugate_len(a) >= 1,
        conjugate_len(b) >= 1,
    ensures
        !(conjugate_lt(t, a, b) && conjugate_lt(t, b, a)),
{
    if conjugate_lt(t, a, b) {
        let x = lemma_conjugates_ordered(t, a, b);
        lemma_conjugates_differ(t, a, b, x);
    }
}

proof fn lemma_conjugate_rank_chain(t: Seq<u8>, list: Seq<Conjugate>, x: int, y: int, z: int)
    requires
        is_text_ordered(t, list),
        0 <= x < list.len(),
        0 <= y < list.len(),
        0 <= z < list.len(),
        conjugate_rank_order(t, list)(x, y) || conjugate_rank_order(t, list)(y, z),
        conjugate_rank_order(t, list)(x, y) || !conjugate_rank_order(t, list)(y, x),
        conjugate_rank_order(t, list)(y, z) || !conjugate_rank_order(t, list)(z, y),
    ensures
        conjugate_rank_order(t, list)(x, z),
{
    let a = list[x];
    let b = list[y];
    let c = list[z];
    lemma_conjugate_asymmetric(t, a, b);
    lemma_conjugate_asymmetric(t, b, c);
    lemma_conjugate_asymmetric(t, a, c);
    if conjugate_lt(t, a, b) || conjugate_lt(t, b, c) {
        lemma_conjugate_chain(t, a, b, c);
    } else {
        // all three agree for ever, and the positions decide
        if conjugate_lt(t, c, a) {
            let i = lemma_conjugates_ordered(t, c, a);
            lemma_conjugates_unordered(t, a, b, i);
            lemma_conjugates_unordered(t, b, c, i);
        }
        if conjugate_lt(t, a, c) {
            let i = lemma_conjugates_ordered(t, a, c);
            lemma_conjugates_unordered(t, a, b, i);
            lemma_conjugates_unordered(t, b, c, i);
        }
    }
}

/// The text positions at which the rotations of a sorted list start.
pub open spec fn conjugate_listing(sorted: Seq<Conjugate>) -> Seq<int> {
    Seq::new(sorted.len(), |i: int| conjugate_pos(sorted[i]))
}

proof fn lemma_conjugate_listing(t: Seq<u8>, list: Seq<Conjugate>, sorted: Seq<Conjugate>)
    requires
        is_text_ordered(t, list),
        is_conjugate_order(t, list, sorted),
    ensures
        is_listing(conjugate_listing(sorted)),
        forall|i: int, j: int|
            0 <= i < j < sorted.len() ==> !#[trigger] conjugate_rank_order(t, list)(
                conjugate_listing(sorted)[j],
                conjugate_listing(sorted)[i],
            ),
{
    let s = conjugate_listing(sorted);
    let lt = conjugate_rank_order(t, list);
    assert forall|i: int, j: int| 0 <= i < j < s.len() implies #[trigger] s[i] != #[trigger] s[j]
        && !lt(s[j], s[i]) by {
        assert(conjugate_ranked(t, sorted, i, j));
        lemma_conjugate_asymmetric(t, sorted[i], sorted[j]);
    }
    assert forall|p: int| 0 <= p < s.len() implies #[trigger] s.contains(p) by {
        assert(has_conjugate(sorted, p));
        let i = choose|i: int| 0 <= i < sorted.len() && conjugate_pos(#[trigger] sorted[i]) == p;
        assert(s[i] == p);
    }
}

/// The rotations of the Lyndon factors can be sorted in one way only.
pub proof fn lemma_conjugate_order_unique(
    t: Seq<u8>,
    list: Seq<Conjugate>,
    first: Seq<Conjugate>,
    second: Seq<Conjugate>,
)
    requires
        is_text_ordered(t, list),
        is_conjugate_order(t, list, first),
        is_conjugate_order(t, list, second),
    ensures
        first == second,
{
    let lt = conjugate_rank_order(t, list);
    let a = conjugate_listing(first);
    let b = conjugate_listing(second);
    lemma_conjugate_listing(t, list, first);
    lemma_conjugate_listing(t, list, second);
    lemma_conjugate_rank_order(t, list);
    assert forall|i: int| 0 <= i < first.len() implies first[i] == second[i] by {
        lemma_sorted_listings_agree(a, b, lt, i);
        assert(first[i] == list[a[i]]);
        assert(second[i] == list[b[i]]);
    }
    assert(first =~= second);
}

/// A text has one bijective Burrows-Wheeler transform only.
pub proof fn lemma_bbwt_unique(t: Seq<u8>, first: Seq<u8>, second: Seq<u8>)
    requires
        is_bbwt_of(t, first),
        is_bbwt_of(t, second),
    ensures
        first == second,
{
    let (ends1, list1, sorted1) = choose|
        ends: Seq<usize>,
        list: Seq<Conjugate>,
        sorted: Seq<Conjugate>,
    |
        #![trigger is_conjugate_list(t, ends, list), is_conjugate_order(t, list, sorted)]
        {
            &&& is_lyndon_ends(t, ends)
            &&& is_conjugate_list(t, ends, list)
            &&& is_conjugate_order(t, list, sorted)
            &&& first == bbwt_by_order(t, sorted)
        };
    let (ends2, list2, sorted2) = choose|
        ends: Seq<usize>,
        list: Seq<Conjugate>,
        sorted: Seq<Conjugate>,
    |
        #![trigger is_conjugate_list(t, ends, list), is_conjugate_order(t, list, sorted)]
        {
            &&& is_lyndon_ends(t, ends)
            &&& is_conjugate_list(t, ends, list)
            &&& is_conjugate_order(t, list, sorted)
            &&& second == bbwt_by_order(t, sorted)
        };
    lemma_lyndon_ends_unique(t, ends1, ends2);
    lemma_conjugate_list(t, ends1, list1);
    lemma_conjugate_list(t, ends1, list2);
    assert forall|p: int| 0 <= p < t.len() implies list1[p] == list2[p] by {
        assert(conjugate_pos(list1[p]) == p);
        assert(conjugate_pos(list2[p]) == p);
        lemma_same_factor(t, ends1, list1, list2, p);
    }
    assert(list1 =~= list2);
    lemma_conjugate_order_unique(t, list1, sorted1, sorted2);
}

/// The list of all rotations of all factors is in the order of the text.
proof fn lemma_conjugate_list(t: Seq<u8>, ends: Seq<usize>, list: Seq<Conjugate>)
    requires
        is_lyndon_ends(t, ends),
        is_conjugate_list(t, ends, list),
    ensures
        is_text_ordered(t, list),
{
    assert forall|p: int| 0 <= p < list.len() implies conjugate_fits(t, #[trigger] list[p])
        && conjugate_pos(list[p]) == p by {
        assert(conjugate_at(ends, list, p));
        let x = choose|x: int|
            0 <= x < ends.len() && factor_begin(ends, x) <= p <= #[trigger] ends[x]
                && list[p].lyndon_start == factor_begin(ends, x) && list[p].lyndon_end == ends[x]
                && list[p].index == p - factor_begin(ends, x);
        if x < ends.len() - 1 {
            assert(ends[x] < ends[ends.len() - 1]);
        }
    }
}

/// The factor that covers a text position is the same in both lists.
proof fn lemma_same_factor(
    t: Seq<u8>,
    ends: Seq<usize>,
    first: Seq<Conjugate>,
    second: Seq<Conjugate>,
    p: int,
)
    requires
        is_lyndon_ends(t, ends),
        is_conjugate_list(t, ends, first),
        is_conjugate_list(t, ends, second),
        0 <= p < t.len(),
    ensures
        first[p] == second[p],
{
    assert(conjugate_at(ends, first, p));
    assert(conjugate_at(ends, second, p));
    let x = choose|x: int|
        0 <= x < ends.len() && factor_begin(ends, x) <= p <= #[trigger] ends[x]
            && first[p].lyndon_start == factor_begin(ends, x) && first[p].lyndon_end == ends[x]
            && first[p].index == p - factor_begin(ends, x);
    let y = choose|y: int|
        0 <= y < ends.len() && factor_begin(ends, y) <= p <= #[trigger] ends[y]
            && second[p].lyndon_start == factor_begin(ends, y) && second[p].lyndon_end == ends[y]
            && second[p].index == p - factor_begin(ends, y);
    if x < y {
        if x + 1 < y {
            assert(ends[x] < ends[y - 1]);
        }
    } else if y < x {
        if y + 1 < x {
            assert(ends[y] < ends[x - 1]);
        }
    }
}

} // verus!
