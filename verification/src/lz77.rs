//! LZ77 factorization from the suffix array, and its decoder.

use crate::nearest::{compute_nsv, compute_psv, INVALID_VALUE, is_nsv_of, is_psv_of, nsv_at, psv_at};
use crate::range_min::RangeMinimumIndex;
use crate::rank_arrays::{
    compute_lcp, compute_phi, compute_plcp, inverse_permutation, is_lcp_array, lemma_lcp_from_plcp,
    lemma_permutation_len, lemma_range_min_is_lcp,
};
use crate::suffix_sort::suffix_array;
use crate::text::{
    agree, is_inverse_of, is_suffix_array, lcp_len, lemma_lcp_len_props, lemma_lcp_len_symmetric,
    lemma_suffix_lt_transitive, ranked_before, same_at,
};
use vstd::prelude::*;

verus! {

/// One phrase of a factorization. With `len == 0` it stands for the single
/// byte `pos`; otherwise for `len` bytes copied from `pos` bytes before the
/// place where the phrase starts.
#[derive(Debug, Clone, Copy, PartialEq, Eq, Structural)]
pub struct LZFactor {
    pub pos: u32,
    pub len: u32,
}

/// `text` extended by `count` bytes, each a copy of the byte that stands at
/// `src`, `src + 1`, .. of the text as it has grown so far.
pub open spec fn copy_from(text: Seq<u8>, src: int, count: nat) -> Seq<u8>
    decreases count,
{
    if count == 0 {
        text
    } else {
        copy_from(text.push(text[src]), src + 1, (count - 1) as nat)
    }
}

/// `text` extended by what the factor `f` stands for.
pub open spec fn apply_factor(text: Seq<u8>, f: LZFactor) -> Seq<u8> {
    if f.len == 0 {
        text.push(f.pos as u8)
    } else {
        copy_from(text, text.len() - f.pos, f.len as nat)
    }
}

/// The text that a list of factors stands for.
pub open spec fn decode_spec(factors: Seq<LZFactor>) -> Seq<u8>
    decreases factors.len(),
{
    if factors.len() == 0 {
        Seq::empty()
    } else {
        apply_factor(decode_spec(factors.drop_last()), factors.last())
    }
}

/// A copy factor reaches back at least one byte and not before the start.
pub open spec fn factor_fits(text: Seq<u8>, f: LZFactor) -> bool {
    f.len == 0 || 1 <= f.pos <= text.len()
}

/// Every factor of the list fits the text decoded before it.
pub open spec fn is_decodable(factors: Seq<LZFactor>) -> bool
    decreases factors.len(),
{
    factors.len() == 0 || (is_decodable(factors.drop_last()) && factor_fits(
        decode_spec(factors.drop_last()),
        factors.last(),
    ))
}

/// A prefix of a decodable list is decodable.
pub proof fn lemma_decodable_prefix(factors: Seq<LZFactor>, k: int)
    requires
        is_decodable(factors),
        0 <= k <= factors.len(),
    ensures
        is_decodable(factors.take(k)),
    decreases factors.len(),
{
    if k < factors.len() {
        lemma_decodable_prefix(factors.drop_last(), k);
        assert(factors.drop_last().take(k) =~= factors.take(k));
    } else {
        assert(factors.take(k) =~= factors);
    }
}

/// Copying `count` bytes that equal the bytes of `t` from `i` on, out of the
/// first `i` bytes of `t`, gives the first `i + count` bytes of `t`.
pub proof fn lemma_copy_extends(t: Seq<u8>, src: int, i: int, count: nat)
    requires
        0 <= src < i,
        i + count <= t.len(),
        agree(t, src, i, count as int),
    ensures
        copy_from(t.take(i), src, count) == t.take(i + count),
    decreases count,
{
    if count > 0 {
        assert(same_at(t, src, i, 0));
        assert(t.take(i).push(t.take(i)[src]) =~= t.take(i + 1));
        assert forall|x: int| 0 <= x < count - 1 implies #[trigger] same_at(t, src + 1, i + 1, x) by {
            assert(same_at(t, src, i, x + 1));
        }
        lemma_copy_extends(t, src + 1, i + 1, (count - 1) as nat);
    }
}

/// Rebuilds the text from its factors.
pub fn decode_lz77(factors: &[LZFactor]) -> (text: Vec<u8>)
    requires
        is_decodable(factors@),
    ensures
        text@ == decode_spec(factors@),
{
    let mut text: Vec<u8> = Vec::new();
    let mut k: usize = 0;
    assert(factors@.take(0) =~= Seq::<LZFactor>::empty());
    while k < factors.len()
        invariant
            k <= factors.len(),
            is_decodable(factors@),
            text@ == decode_spec(factors@.take(k as int)),
        decreases factors.len() - k,
    {
        let factor = factors[k];
        proof {
            lemma_decodable_prefix(factors@, k + 1);
            assert(factors@.take(k + 1).drop_last() =~= factors@.take(k as int));
            assert(factors@.take(k + 1).last() == factor);
        }
        if factor.len == 0 {
            text.push(#[verifier::truncate] (factor.pos as u8));
        } else {
            let ref_pos = text.len() - factor.pos as usize;
            let ghost start = text@;
            let mut p: usize = 0;
            while p < factor.len as usize
                invariant
                    p <= factor.len,
                    ref_pos < start.len(),
                    text.len() == start.len() + p,
                    copy_from(text@, ref_pos + p, (factor.len - p) as nat) == copy_from(
                        start,
                        ref_pos as int,
                        factor.len as nat,
                    ),
                decreases factor.len - p,
            {
                let byte = text[ref_pos + p];
                text.push(byte);
                p += 1;
            }
        }
        k += 1;
    }
    assert(factors@.take(k as int) =~= factors@);
    text
}

/// Length of the longest common prefix of the suffix at `i` and the suffix
/// that `psv` names for it; 0 where it names none.
pub open spec fn prev_match(t: Seq<u8>, sa: Seq<i32>, isa: Seq<i32>, psv: Seq<u32>, i: int) -> nat {
    let r = isa[i] as int;
    if psv[r] == INVALID_VALUE {
        0
    } else {
        lcp_len(t, sa[psv[r] as int] as int, i)
    }
}

/// Length of the longest common prefix of the suffix at `i` and the suffix
/// that `nsv` names for it; 0 where it names none.
pub open spec fn next_match(t: Seq<u8>, sa: Seq<i32>, isa: Seq<i32>, nsv: Seq<u32>, i: int) -> nat {
    let r = isa[i] as int;
    if nsv[r] == INVALID_VALUE {
        0
    } else {
        lcp_len(t, i, sa[nsv[r] as int] as int)
    }
}

/// The factor that starts at text position `i`: the longer of the two
/// matches with the neighbours in rank that start earlier in the text (the
/// previous one on a tie), or the byte itself where neither matches.
pub open spec fn lz_factor_at(
    t: Seq<u8>,
    sa: Seq<i32>,
    isa: Seq<i32>,
    psv: Seq<u32>,
    nsv: Seq<u32>,
    i: int,
) -> LZFactor {
    let r = isa[i] as int;
    let prev = prev_match(t, sa, isa, psv, i);
    let next = next_match(t, sa, isa, nsv, i);
    if prev == 0 && next == 0 {
        LZFactor { len: 0, pos: t[i] as u32 }
    } else if prev < next {
        LZFactor { len: next as u32, pos: (i - sa[nsv[r] as int]) as u32 }
    } else {
        LZFactor { len: prev as u32, pos: (i - sa[psv[r] as int]) as u32 }
    }
}

/// The number of text bytes that a factor covers.
pub open spec fn factor_span(f: LZFactor) -> int {
    if f.len as int >= 1 {
        f.len as int
    } else {
        1
    }
}

/// The factors of the text from position `i` on.
pub open spec fn lz_parse(
    t: Seq<u8>,
    sa: Seq<i32>,
    isa: Seq<i32>,
    psv: Seq<u32>,
    nsv: Seq<u32>,
    i: int,
) -> Seq<LZFactor>
    decreases t.len() - i,
{
    if i < 0 || i >= t.len() {
        Seq::empty()
    } else {
        let f = lz_factor_at(t, sa, isa, psv, nsv, i);
        if i + factor_span(f) < t.len() {
            seq![f] + lz_parse(t, sa, isa, psv, nsv, i + factor_span(f))
        } else {
            seq![f]
        }
    }
}

/// The arrays that the factorization reads belong to the text.
pub open spec fn is_lz_input(
    t: Seq<u8>,
    sa: Seq<i32>,
    isa: Seq<i32>,
    lcp: Seq<u32>,
    nsv: Seq<u32>,
    psv: Seq<u32>,
) -> bool {
    &&& is_suffix_array(t, sa)
    &&& is_inverse_of(isa, sa)
    &&& is_lcp_array(lcp, t, sa)
    &&& is_nsv_of(nsv, sa)
    &&& is_psv_of(psv, sa)
}

/// No earlier position matches the suffix at `i` for longer than the better
/// of its two neighbours in rank does.
pub proof fn lemma_lz_factor_longest(
    t: Seq<u8>,
    sa: Seq<i32>,
    isa: Seq<i32>,
    psv: Seq<u32>,
    nsv: Seq<u32>,
    i: int,
    j: int,
)
    requires
        is_suffix_array(t, sa),
        is_inverse_of(isa, sa),
        is_nsv_of(nsv, sa),
        is_psv_of(psv, sa),
        0 <= j < i < t.len(),
    ensures
        lcp_len(t, j, i) <= prev_match(t, sa, isa, psv, i) || lcp_len(t, j, i) <= next_match(
            t,
            sa,
            isa,
            nsv,
            i,
        ),
{
    let r = isa[i] as int;
    let rj = isa[j] as int;
    assert(sa[r] == i);
    assert(sa[rj] == j);
    if rj < r {
        assert(psv_at(psv, sa, r));
        let a = psv[r] as int;
        if a != rj {
            assert(ranked_before(t, sa, rj, a));
            assert(ranked_before(t, sa, a, r));
            lemma_suffix_lt_transitive(t, j, sa[a] as int, i);
        }
    } else {
        assert(nsv_at(nsv, sa, r));
        let b = nsv[r] as int;
        lemma_lcp_len_symmetric(t, j, i);
        if b != rj {
            assert(ranked_before(t, sa, r, b));
            assert(ranked_before(t, sa, b, rj));
            lemma_suffix_lt_transitive(t, i, sa[b] as int, j);
        }
    }
}

/// The factor that starts at `i` is a longest match of the text from `i` on
/// with the text from an earlier position on: no earlier position matches
/// for longer, and the position that the factor names matches for as long.
pub proof fn lemma_lz_factor_is_longest(
    t: Seq<u8>,
    sa: Seq<i32>,
    isa: Seq<i32>,
    psv: Seq<u32>,
    nsv: Seq<u32>,
    i: int,
)
    requires
        is_suffix_array(t, sa),
        is_inverse_of(isa, sa),
        is_nsv_of(nsv, sa),
        is_psv_of(psv, sa),
        0 <= i < t.len(),
    ensures
        forall|j: int| 0 <= j < i ==> #[trigger] lcp_len(t, j, i) <= lz_factor_at(t, sa, isa, psv, nsv, i).len,
        lz_factor_at(t, sa, isa, psv, nsv, i).len > 0 ==> 1 <= lz_factor_at(
            t,
            sa,
            isa,
            psv,
            nsv,
            i,
        ).pos <= i && lcp_len(t, i - lz_factor_at(t, sa, isa, psv, nsv, i).pos, i) == lz_factor_at(
            t,
            sa,
            isa,
            psv,
            nsv,
            i,
        ).len,
{
    let r = isa[i] as int;
    assert(sa[r] == i);
    assert(psv_at(psv, sa, r));
    assert(nsv_at(nsv, sa, r));
    lemma_permutation_len(sa);
    if psv[r] != INVALID_VALUE {
        lemma_lcp_len_props(t, sa[psv[r] as int] as int, i);
    }
    if nsv[r] != INVALID_VALUE {
        lemma_lcp_len_props(t, i, sa[nsv[r] as int] as int);
        lemma_lcp_len_symmetric(t, i, sa[nsv[r] as int] as int);
    }
    assert forall|j: int| 0 <= j < i implies #[trigger] lcp_len(t, j, i) <= lz_factor_at(
        t,
        sa,
        isa,
        psv,
        nsv,
        i,
    ).len by {
        lemma_lz_factor_longest(t, sa, isa, psv, nsv, i, j);
    }
}

/// The LZ77 factorization of `text`, read off its suffix array: at every
/// position the longest match with an earlier position, found at one of the
/// two nearest ranks whose suffixes start earlier.
pub fn compute_lz77(
    text: &[u8],
    lcprmq: &RangeMinimumIndex,
    sa: &[i32],
    isa: &[i32],
    lcp: &[u32],
    nsv: &[u32],
    psv: &[u32],
) -> (factors: Vec<LZFactor>)
    requires
        is_lz_input(text@, sa@, isa@, lcp@, nsv@, psv@),
        lcprmq@ == lcp@,
    ensures
        factors@ == lz_parse(text@, sa@, isa@, psv@, nsv@, 0),
        is_decodable(factors@),
        decode_spec(factors@) == text@,
{
    let n = text.len();
    let mut factors: Vec<LZFactor> = Vec::new();
    let mut i: usize = 0;
    proof {
        lemma_permutation_len(sa@);
        assert(text@.take(0) =~= Seq::<u8>::empty());
        assert(factors@ + lz_parse(text@, sa@, isa@, psv@, nsv@, 0) =~= lz_parse(
            text@,
            sa@,
            isa@,
            psv@,
            nsv@,
            0,
        ));
    }
    while i < n
        invariant
            n == text.len(),
            n <= 0x8000_0000,
            i <= n,
            is_lz_input(text@, sa@, isa@, lcp@, nsv@, psv@),
            lcprmq@ == lcp@,
            factors@ + lz_parse(text@, sa@, isa@, psv@, nsv@, i as int) == lz_parse(
                text@,
                sa@,
                isa@,
                psv@,
                nsv@,
                0,
            ),
            is_decodable(factors@),
            decode_spec(factors@) == text@.take(i as int),
        decreases n - i,
    {
        let sa_position = isa[i] as usize;
        proof {
            assert(sa@[isa@[i as int] as int] == i);
            assert(psv_at(psv@, sa@, sa_position as int));
            assert(nsv_at(nsv@, sa@, sa_position as int));
        }
        let prev_lcp = if psv[sa_position] == INVALID_VALUE {
            0
        } else {
            let psv_sa_position = psv[sa_position] as usize;
            proof {
                lemma_range_min_is_lcp(text@, sa@, lcp@, psv_sa_position as int, sa_position as int);
            }
            lcprmq.query(psv_sa_position + 1, sa_position + 1)
        };
        let next_lcp = if nsv[sa_position] == INVALID_VALUE {
            0
        } else {
            let nsv_sa_position = nsv[sa_position] as usize;
            proof {
                lemma_range_min_is_lcp(text@, sa@, lcp@, sa_position as int, nsv_sa_position as int);
            }
            lcprmq.query(sa_position + 1, nsv_sa_position + 1)
        };
        assert(prev_lcp == prev_match(text@, sa@, isa@, psv@, i as int));
        assert(next_lcp == next_match(text@, sa@, isa@, nsv@, i as int));
        let ghost before = factors@;
        let ghost f = lz_factor_at(text@, sa@, isa@, psv@, nsv@, i as int);
        if prev_lcp == 0 && next_lcp == 0 {
            let factor = LZFactor { len: 0, pos: text[i] as u32 };
            factors.push(factor);
            proof {
                assert(factor == f);
                assert(text@.take(i as int).push(factor.pos as u8) =~= text@.take(i + 1));
            }
            i += 1;
        } else {
            let max_lcp = if prev_lcp < next_lcp {
                next_lcp
            } else {
                prev_lcp
            };
            let max_pos = if prev_lcp < next_lcp {
                sa[nsv[sa_position] as usize]
            } else {
                sa[psv[sa_position] as usize]
            };
            proof {
                if prev_lcp < next_lcp {
                    lemma_lcp_len_symmetric(text@, i as int, max_pos as int);
                }
                lemma_lcp_len_props(text@, max_pos as int, i as int);
                lemma_copy_extends(text@, max_pos as int, i as int, max_lcp as nat);
            }
            let factor = LZFactor { len: max_lcp, pos: i as u32 - max_pos as u32 };
            factors.push(factor);
            proof {
                assert(factor == f);
            }
            i += max_lcp as usize;
        }
        proof {
            assert(factors@.drop_last() =~= before);
            assert(factors@.last() == f);
            assert(factors@ + lz_parse(text@, sa@, isa@, psv@, nsv@, i as int) =~= before
                + lz_parse(text@, sa@, isa@, psv@, nsv@, i - factor_span(f)));
        }
    }
    proof {
        assert(text@.take(n as int) =~= text@);
        assert(factors@ + lz_parse(text@, sa@, isa@, psv@, nsv@, n as int) =~= factors@);
    }
    factors
}

/// The LZ77 factorization of `text`, with every array that it needs built on
/// the way.
pub fn lz77_factorize(text: &[u8]) -> (factors: Vec<LZFactor>)
    requires
        0 < text.len() < i32::MAX,
        text.len() <= usize::MAX / 16,
    ensures
        is_decodable(factors@),
        decode_spec(factors@) == text@,
        exists|sa: Seq<i32>, isa: Seq<i32>, lcp: Seq<u32>, nsv: Seq<u32>, psv: Seq<u32>|
            #[trigger] is_lz_input(text@, sa, isa, lcp, nsv, psv) && factors@ == lz_parse(
                text@,
                sa,
                isa,
                psv,
                nsv,
                0,
            ),
{
    let sa = suffix_array(text);
    let isa = inverse_permutation(sa.as_slice());
    let psv = compute_psv(sa.as_slice());
    let nsv = compute_nsv(sa.as_slice());
    let phi = compute_phi(sa.as_slice());
    let plcp = compute_plcp(text, phi.as_slice());
    let lcp = compute_lcp(plcp.as_slice(), sa.as_slice());
    proof {
        lemma_lcp_from_plcp(text@, sa@, phi@, plcp@, lcp@);
    }
    let lcprmq = RangeMinimumIndex::build(lcp.clone());
    let factors = compute_lz77(
        text,
        &lcprmq,
        sa.as_slice(),
        isa.as_slice(),
        lcp.as_slice(),
        nsv.as_slice(),
        psv.as_slice(),
    );
    proof {
        assert(is_lz_input(text@, sa@, isa@, lcp@, nsv@, psv@));
    }
    factors
}

/// The factor of the lex-parse that starts at `i`: the common prefix with
/// the suffix that `phi` names, or the byte itself where there is none.
pub open spec fn lex_factor_at(t: Seq<u8>, plcp: Seq<u32>, phi: Seq<i32>, i: int) -> LZFactor {
    if plcp[i] == 0 {
        LZFactor { len: 0, pos: t[i] as u32 }
    } else {
        LZFactor { len: plcp[i], pos: phi[i] as u32 }
    }
}

/// The factors of the lex-parse from position `i` on.
pub open spec fn lex_parse(t: Seq<u8>, plcp: Seq<u32>, phi: Seq<i32>, i: int) -> Seq<LZFactor>
    decreases t.len() - i,
{
    if i < 0 || i >= t.len() {
        Seq::empty()
    } else {
        let f = lex_factor_at(t, plcp, phi, i);
        if i + factor_span(f) < t.len() {
            seq![f] + lex_parse(t, plcp, phi, i + factor_span(f))
        } else {
            seq![f]
        }
    }
}

/// The lex-parse of `text`: every factor is the longest common prefix with
/// the suffix that comes just before in the suffix array, and refers to the
/// place where that suffix starts.
pub fn compute_lexparse(text: &[u8], plcp: &[u32], phi: &[i32]) -> (factors: Vec<LZFactor>)
    requires
        plcp.len() == text.len(),
        phi.len() == text.len(),
        forall|i: int| 0 <= i < text.len() ==> i + #[trigger] plcp[i] <= usize::MAX,
    ensures
        factors@ == lex_parse(text@, plcp@, phi@, 0),
{
    let mut factors: Vec<LZFactor> = Vec::new();
    let mut i: usize = 0;
    assert(factors@ + lex_parse(text@, plcp@, phi@, 0) =~= lex_parse(text@, plcp@, phi@, 0));
    while i < text.len()
        invariant
            plcp.len() == text.len(),
            phi.len() == text.len(),
            forall|i: int| 0 <= i < text.len() ==> i + #[trigger] plcp[i] <= usize::MAX,
            factors@ + lex_parse(text@, plcp@, phi@, i as int) == lex_parse(text@, plcp@, phi@, 0),
        decreases
                (if i <= text.len() {
                    text.len() - i
                } else {
                    0
                }),
    {
        let ghost before = factors@;
        let ghost f = lex_factor_at(text@, plcp@, phi@, i as int);
        let ghost at = i;
        if plcp[i] == 0 {
            factors.push(LZFactor { len: 0, pos: text[i] as u32 });
            i += 1;
        } else {
            factors.push(LZFactor { len: plcp[i], pos: #[verifier::truncate] (phi[i] as u32) });
            i += plcp[i] as usize;
        }
        proof {
            assert(factors@ =~= before.push(f));
            assert(factors@ + lex_parse(text@, plcp@, phi@, i as int) =~= before + lex_parse(
                text@,
                plcp@,
                phi@,
                at as int,
            ));
        }
    }
    assert(factors@ + lex_parse(text@, plcp@, phi@, i as int) =~= factors@);
    factors
}

} // verus!
