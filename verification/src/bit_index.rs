//! A set of text positions as a bit vector with rank and select, held in the
//! structures of the `succinct` crate.

use succinct::BitVector;
use succinct::bit_vec::{BitVec, BitVecMut};
use succinct::rank::{BitRankSupport, Rank9};
use succinct::select::{BinSearchSelect, Select1Support};
use vstd::prelude::*;

verus! {

/// A bit vector of fixed length whose bits can still be set: a
/// `succinct::BitVector`. What it holds is known through `marked_bits` alone.
#[verifier::external_body]
pub struct PositionBits {
    bits: BitVector<u64>,
}

/// A bit vector with the counts that answer rank queries: a
/// `succinct::Rank9`. What it holds is known through `ranked_bits` alone.
#[verifier::external_body]
pub struct RankedBits {
    rank: Rank9<BitVector<u64>>,
}

/// A bit vector that answers membership, rank and select queries: a
/// `succinct::BinSearchSelect` over a `Rank9`. What it holds is known through
/// `indexed_bits` alone.
#[verifier::external_body]
pub struct PositionSet {
    select: BinSearchSelect<Rank9<BitVector<u64>>>,
}

/// The bits of a bit vector, by position.
pub uninterp spec fn marked_bits(bits: PositionBits) -> Seq<bool>;

/// The bits under a rank structure, by position.
pub uninterp spec fn ranked_bits(bits: RankedBits) -> Seq<bool>;

/// The bits under a select structure, by position.
pub uninterp spec fn indexed_bits(set: PositionSet) -> Seq<bool>;

/// The number of set bits among the first `upto`.
pub open spec fn count_true(bits: Seq<bool>, upto: int) -> nat
    decreases upto,
{
    if upto <= 0 {
        0
    } else if bits[upto - 1] {
        count_true(bits, upto - 1) + 1
    } else {
        count_true(bits, upto - 1)
    }
}

/// Counting further never counts less.
pub proof fn lemma_count_true_monotone(bits: Seq<bool>, a: int, b: int)
    requires
        a <= b,
    ensures
        count_true(bits, a) <= count_true(bits, b),
    decreases b - a,
{
    if a < b {
        lemma_count_true_monotone(bits, a, b - 1);
    }
}

/// A set bit in between makes the count grow.
pub proof fn lemma_count_true_grows(bits: Seq<bool>, a: int, q: int, b: int)
    requires
        0 <= a <= q < b,
        bits[q],
    ensures
        count_true(bits, a) < count_true(bits, b),
{
    lemma_count_true_monotone(bits, a, q);
    lemma_count_true_monotone(bits, q + 1, b);
}

/// `BitVector::with_fill`: a bit vector of `len` bits, every one of them
/// `value`.
#[verifier::external_body]
pub(crate) fn bits_with_fill(len: u64, value: bool) -> (bits: PositionBits)
    ensures
        marked_bits(bits) == Seq::new(len as nat, |i: int| value),
{
    PositionBits { bits: BitVector::with_fill(len, value) }
}

/// `BitVecMut::set_bit` on a `BitVector`: the bit at `index` becomes `value`,
/// the others stay. The call panics for an index outside the vector.
#[verifier::external_body]
pub(crate) fn bits_set(bits: &mut PositionBits, index: u64, value: bool)
    requires
        index < marked_bits(*old(bits)).len(),
    ensures
        marked_bits(*final(bits)) == marked_bits(*old(bits)).update(index as int, value),
{
    bits.bits.set_bit(index, value);
}

/// `Rank9::new`: a rank structure over the same bits.
#[verifier::external_body]
pub(crate) fn rank_over(bits: PositionBits) -> (ranked: RankedBits)
    ensures
        ranked_bits(ranked) == marked_bits(bits),
{
    RankedBits { rank: Rank9::new(bits.bits) }
}

/// `BinSearchSelect::new`: a select structure over the same bits.
#[verifier::external_body]
pub(crate) fn select_over(ranked: RankedBits) -> (set: PositionSet)
    ensures
        indexed_bits(set) == ranked_bits(ranked),
{
    PositionSet { select: BinSearchSelect::new(ranked.rank) }
}

/// `BitVec::get_bit`: the bit at `index`. The call panics for an index
/// outside the vector.
#[verifier::external_body]
pub(crate) fn set_get_bit(set: &PositionSet, index: u64) -> (bit: bool)
    requires
        index < indexed_bits(*set).len(),
    ensures
        bit == indexed_bits(*set)[index as int],
{
    set.select.get_bit(index)
}

/// `BitRankSupport::rank1`: the number of set bits up to and including
/// `position`, which has to lie inside the vector.
#[verifier::external_body]
pub(crate) fn set_rank1(set: &PositionSet, position: u64) -> (rank: u64)
    requires
        position < indexed_bits(*set).len(),
    ensures
        rank == count_true(indexed_bits(*set), position + 1),
{
    set.select.rank1(position)
}

/// `Select1Support::select1`: the position of the set bit that has `index`
/// set bits before it, if there is one. The search adds one to `index`.
#[verifier::external_body]
pub(crate) fn set_select1(set: &PositionSet, index: u64) -> (position: Option<u64>)
    requires
        index < u64::MAX,
    ensures
        match position {
            Some(p) => p < indexed_bits(*set).len() && indexed_bits(*set)[p as int] && count_true(
                indexed_bits(*set),
                p as int,
            ) == index,
            None => count_true(indexed_bits(*set), indexed_bits(*set).len() as int) <= index,
        },
{
    set.select.select1(index)
}

/// There are no more set bits than bits.
pub proof fn lemma_count_true_at_most(bits: Seq<bool>, upto: int)
    requires
        0 <= upto,
    ensures
        count_true(bits, upto) <= upto,
    decreases upto,
{
    if upto > 0 {
        lemma_count_true_at_most(bits, upto - 1);
    }
}

} // verus!
