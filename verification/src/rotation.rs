//! The cyclic rotations of a text and their lexicographic order. The rotation
//! that starts at `a` is read off the text written twice.

use crate::sorted::is_strict_weak_order;
use crate::text::{
    agree, lcp_len, lemma_lcp_len_at_least, lemma_lcp_len_is, lemma_lcp_len_props,
    lemma_lcp_len_symmetric, same_at,
};
use vstd::prelude::*;

verus! {

/// The rotation of `t` that starts at `a` is lexicographically smaller than
/// the rotation that starts at `b`.
pub open spec fn rotation_lt(t: Seq<u8>, a: int, b: int) -> bool {
    let l = lcp_len(t + t, a, b) as int;
    l < t.len() && (t + t)[a + l] < (t + t)[b + l]
}

/// The rotation of `t` that starts at `a` is at most the rotation that starts
/// at `b`.
pub open spec fn rotation_le(t: Seq<u8>, a: int, b: int) -> bool {
    !rotation_lt(t, b, a)
}

/// The rotations of `t` that start at `a` and at `b` are the same string.
pub open spec fn rotation_eq(t: Seq<u8>, a: int, b: int) -> bool {
    lcp_len(t + t, a, b) >= t.len()
}

/// No rotation of `t` is smaller than the one that starts at `c`, and those
/// that start behind `c` are larger.
pub open spec fn is_least_rotation(t: Seq<u8>, c: int) -> bool {
    &&& 0 <= c < t.len()
    &&& forall|r: int| 0 <= r < t.len() ==> #[trigger] rotation_le(t, c, r)
    &&& forall|r: int| c < r < t.len() ==> #[trigger] rotation_lt(t, c, r)
}

/// The text written twice holds at `m` the byte of the text at `m`, wrapped
/// round.
pub proof fn lemma_doubled_byte(t: Seq<u8>, m: int)
    requires
        0 <= m < 2 * t.len(),
    ensures
        (t + t)[m] == t[m % (t.len() as int)],
{
    let n = t.len() as int;
    if m < n {
        assert(m % n == m) by (nonlinear_arith)
            requires
                0 <= m < n,
        ;
    } else {
        assert(m % n == m - n) by (nonlinear_arith)
            requires
                n <= m < 2 * n,
        ;
    }
}

/// Two rotations are ordered one way, or the other, or are the same string.
pub proof fn lemma_rotation_total(t: Seq<u8>, a: int, b: int)
    requires
        0 <= a < t.len(),
        0 <= b < t.len(),
    ensures
        rotation_lt(t, a, b) ==> !rotation_lt(t, b, a) && !rotation_eq(t, a, b),
        !rotation_lt(t, a, b) && !rotation_lt(t, b, a) ==> rotation_eq(t, a, b),
        rotation_eq(t, a, b) <==> rotation_eq(t, b, a),
{
    lemma_lcp_len_symmetric(t + t, a, b);
    lemma_lcp_len_props(t + t, a, b);
}

/// A rotation equals itself.
pub proof fn lemma_rotation_reflexive(t: Seq<u8>, a: int)
    requires
        0 <= a < t.len(),
    ensures
        rotation_eq(t, a, a),
        !rotation_lt(t, a, a),
{
    let tt = t + t;
    assert forall|x: int| 0 <= x < tt.len() - a implies #[trigger] same_at(tt, a, a, x) by {}
    lemma_lcp_len_is(tt, a, a, tt.len() - a);
}

/// A text has one start of a least rotation behind which every rotation is
/// larger.
pub proof fn lemma_least_rotation_unique(t: Seq<u8>, first: int, second: int)
    requires
        is_least_rotation(t, first),
        is_least_rotation(t, second),
    ensures
        first == second,
{
    if first < second {
        assert(rotation_lt(t, first, second));
        assert(rotation_le(t, second, first));
    } else if second < first {
        assert(rotation_lt(t, second, first));
        assert(rotation_le(t, first, second));
    }
}

/// Two rotations that agree up to an offset at which they differ are ordered
/// by the bytes at that offset.
pub proof fn lemma_rotation_decided(t: Seq<u8>, a: int, b: int, l: int)
    requires
        0 <= a < t.len(),
        0 <= b < t.len(),
        0 <= l < t.len(),
        agree(t + t, a, b, l),
        (t + t)[a + l] != (t + t)[b + l],
    ensures
        rotation_lt(t, a, b) == ((t + t)[a + l] < (t + t)[b + l]),
        rotation_lt(t, b, a) == ((t + t)[b + l] < (t + t)[a + l]),
{
    lemma_lcp_len_is(t + t, a, b, l);
    lemma_lcp_len_symmetric(t + t, a, b);
}

/// Two rotations that agree in all their bytes are not ordered.
pub proof fn lemma_rotation_same(t: Seq<u8>, a: int, b: int)
    requires
        0 <= a < t.len(),
        0 <= b < t.len(),
        agree(t + t, a, b, t.len() as int),
    ensures
        !rotation_lt(t, a, b),
        !rotation_lt(t, b, a),
{
    lemma_lcp_len_at_least(t + t, a, b, t.len() as int);
    lemma_lcp_len_symmetric(t + t, a, b);
}

/// Two rotations that are not ordered agree in all their bytes.
pub proof fn lemma_rotation_unordered(t: Seq<u8>, a: int, b: int)
    requires
        0 <= a < t.len(),
        0 <= b < t.len(),
        !rotation_lt(t, a, b),
        !rotation_lt(t, b, a),
    ensures
        agree(t + t, a, b, t.len() as int),
{
    lemma_lcp_len_props(t + t, a, b);
    lemma_lcp_len_symmetric(t + t, a, b);
    let l = lcp_len(t + t, a, b) as int;
    assert forall|x: int| 0 <= x < t.len() implies #[trigger] same_at(t + t, a, b, x) by {
        assert(same_at(t + t, a, b, x));
    }
}

/// What decides between two ordered rotations: the offset at which they
/// first differ.
pub proof fn lemma_rotation_ordered(t: Seq<u8>, a: int, b: int) -> (l: int)
    requires
        0 <= a < t.len(),
        0 <= b < t.len(),
        rotation_lt(t, a, b),
    ensures
        0 <= l < t.len(),
        agree(t + t, a, b, l),
        (t + t)[a + l] < (t + t)[b + l],
{
    lemma_lcp_len_props(t + t, a, b);
    lcp_len(t + t, a, b) as int
}

/// A rotation that is smaller than a second, which is no larger than a
/// third, is smaller than the third.
pub proof fn lemma_rotation_lt_le(t: Seq<u8>, x: int, y: int, z: int)
    requires
        0 <= x < t.len(),
        0 <= y < t.len(),
        0 <= z < t.len(),
        rotation_lt(t, x, y),
        !rotation_lt(t, z, y),
    ensures
        rotation_lt(t, x, z),
{
    let tt = t + t;
    let l = lemma_rotation_ordered(t, x, y);
    if rotation_lt(t, y, z) {
        let m = lemma_rotation_ordered(t, y, z);
        let k = if l <= m { l } else { m };
        assert forall|i: int| 0 <= i < k implies #[trigger] same_at(tt, x, z, i) by {
            assert(same_at(tt, x, y, i));
            assert(same_at(tt, y, z, i));
        }
        if l < m {
            assert(same_at(tt, y, z, l));
        } else if m < l {
            assert(same_at(tt, x, y, m));
        }
        lemma_rotation_decided(t, x, z, k);
    } else {
        lemma_rotation_unordered(t, y, z);
        assert forall|i: int| 0 <= i < l implies #[trigger] same_at(tt, x, z, i) by {
            assert(same_at(tt, x, y, i));
            assert(same_at(tt, y, z, i));
        }
        assert(same_at(tt, y, z, l));
        lemma_rotation_decided(t, x, z, l);
    }
}

/// A rotation that is no larger than a second, which is smaller than a
/// third, is smaller than the third.
pub proof fn lemma_rotation_le_lt(t: Seq<u8>, x: int, y: int, z: int)
    requires
        0 <= x < t.len(),
        0 <= y < t.len(),
        0 <= z < t.len(),
        !rotation_lt(t, y, x),
        rotation_lt(t, y, z),
    ensures
        rotation_lt(t, x, z),
{
    let tt = t + t;
    let m = lemma_rotation_ordered(t, y, z);
    if rotation_lt(t, x, y) {
        lemma_rotation_total(t, y, z);
        lemma_rotation_lt_le(t, x, y, z);
    } else {
        lemma_rotation_unordered(t, x, y);
        assert forall|i: int| 0 <= i < m implies #[trigger] same_at(tt, x, z, i) by {
            assert(same_at(tt, x, y, i));
            assert(same_at(tt, y, z, i));
        }
        assert(same_at(tt, x, y, m));
        lemma_rotation_decided(t, x, z, m);
    }
}

/// The order of the rotations of `t`, as a relation on their starts.
pub open spec fn rotation_order(t: Seq<u8>) -> spec_fn(int, int) -> bool {
    |a: int, b: int| rotation_lt(t, a, b)
}

/// The rotations of a text are in a total preorder.
pub proof fn lemma_rotation_order(t: Seq<u8>)
    ensures
        is_strict_weak_order(rotation_order(t), t.len() as int),
{
    let lt = rotation_order(t);
    let n = t.len() as int;
    assert forall|x: int| 0 <= x < n implies !#[trigger] lt(x, x) by {
        lemma_rotation_reflexive(t, x);
    }
    assert forall|x: int, y: int, z: int|
        0 <= x < n && 0 <= y < n && 0 <= z < n && #[trigger] lt(x, y) && !#[trigger] lt(
            z,
            y,
        ) implies lt(x, z) by {
        lemma_rotation_lt_le(t, x, y, z);
    }
    assert forall|x: int, y: int, z: int|
        0 <= x < n && 0 <= y < n && 0 <= z < n && !#[trigger] lt(y, x) && #[trigger] lt(
            y,
            z,
        ) implies lt(x, z) by {
        lemma_rotation_le_lt(t, x, y, z);
    }
}

/// The rotation of `t` that starts at `c`, as a text of its own.
pub open spec fn rotated(t: Seq<u8>, c: int) -> Seq<u8> {
    t.subrange(c, t.len() as int) + t.subrange(0, c)
}

/// Where the rotation of `t` that starts at `r` starts in the text rotated
/// by `c`.
pub open spec fn rebased(r: int, c: int, n: int) -> int {
    if r >= c {
        r - c
    } else {
        r - c + n
    }
}

/// A rotation of the rotated text holds the bytes of the rotation of the
/// text that it stands for.
pub proof fn lemma_rebased_byte(t: Seq<u8>, c: int, r: int, x: int)
    requires
        0 <= c < t.len(),
        0 <= r < t.len(),
        0 <= x < t.len(),
    ensures
        (rotated(t, c) + rotated(t, c))[rebased(r, c, t.len() as int) + x] == (t + t)[r + x],
{
    let n = t.len() as int;
    let u = rotated(t, c);
    assert(u.len() == n);
    let m = rebased(r, c, n) + x;
    let y = if m < n { m } else { m - n };
    assert((u + u)[m] == u[y]);
    assert(u[y] == if y < n - c { t[c + y] } else { t[y - (n - c)] });
}

/// The rotations of the rotated text are ordered as the rotations of the
/// text that they stand for.
pub proof fn lemma_rotation_rebased(t: Seq<u8>, c: int, a: int, b: int)
    requires
        0 <= c < t.len(),
        0 <= a < t.len(),
        0 <= b < t.len(),
    ensures
        rotation_lt(t, a, b) == rotation_lt(
            rotated(t, c),
            rebased(a, c, t.len() as int),
            rebased(b, c, t.len() as int),
        ),
{
    let n = t.len() as int;
    let u = rotated(t, c);
    let tt = t + t;
    let uu = u + u;
    let ra = rebased(a, c, n);
    let rb = rebased(b, c, n);
    lemma_lcp_len_props(tt, a, b);
    let l = lcp_len(tt, a, b) as int;
    if l < n {
        assert forall|x: int| 0 <= x < l implies #[trigger] same_at(uu, ra, rb, x) by {
            assert(same_at(tt, a, b, x));
            lemma_rebased_byte(t, c, a, x);
            lemma_rebased_byte(t, c, b, x);
        }
        lemma_rebased_byte(t, c, a, l);
        lemma_rebased_byte(t, c, b, l);
        lemma_rotation_decided(u, ra, rb, l);
    } else {
        assert forall|x: int| 0 <= x < n implies #[trigger] same_at(uu, ra, rb, x) by {
            assert(same_at(tt, a, b, x));
            lemma_rebased_byte(t, c, a, x);
            lemma_rebased_byte(t, c, b, x);
        }
        lemma_rotation_same(u, ra, rb);
    }
}

} // verus!
