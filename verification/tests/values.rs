use stringology::attractor::{is_attractor, uncovered_substrings};
use stringology::bbwt::{bbwt_naive, compare_conjugates, Conjugate};
use stringology::border::{border_array, is_primitive, smallest_period};
use stringology::bwt::{bwt_by_matrix, bwt_by_matrix_naive, bwt_from_sa, bwt_from_text_by_sa};
use stringology::codec::{count_sigma, mtf, mtf_vector, number_of_runs};
use stringology::enumerate::{next_indices, number_to_word, word_of_indices};
use stringology::escape::{escape, unescape};
use stringology::generators::{
    BinaryStringGenerator, ConjugateIterator, LyndonWordGenerator, RandomStringGenerator,
    StringTestFactory,
};
use stringology::interval_tree::{lcp_intervals, LCPInterval, SuffixEdge};
use stringology::lyndon::{
    duval, is_necklace, is_necklace_slice, isa_lyndon_factorization, lyndon_conjugate,
    number_distinct_lyndon_factors,
};
use stringology::lz77::{compute_lexparse, compute_lz77, decode_lz77, lz77_factorize, LZFactor};
use stringology::mus::{get_mus, mus_of_text};
use stringology::naive_sort::{
    compare_rotations, compare_suffixes, sorted_rotations, suffixarray_naive,
};
use stringology::nearest::{compute_nsv, compute_psv, INVALID_VALUE};
use stringology::range_min::RangeMinimumIndex;
use stringology::rank_arrays::{compute_lcp, compute_phi, compute_plcp, inverse_permutation};
use stringology::rle::{rle, rle_text, rle_zero};
use stringology::suffix_sort::suffix_array;
use stringology::util::{
    binary_vector_to_str, bit_size, get_filename, second_criteria, stringopt_stropt,
};
use stringology::words::{
    binary_debruijn, fibonacci, fibonacci_number, kolakoski, paperfolding, period_doubling,
    period_doubling_sequence, reverse, thuemorse, to_binary, two_to,
};
use std::cmp::Ordering;

const BANANA: &[u8] = b"banana\0";

fn arrays_of(text: &[u8]) -> (Vec<i32>, Vec<i32>, Vec<u32>) {
    let sa = suffix_array(text);
    let isa = inverse_permutation(sa.as_slice());
    let phi = compute_phi(sa.as_slice());
    let plcp = compute_plcp(text, phi.as_slice());
    let lcp = compute_lcp(plcp.as_slice(), sa.as_slice());
    (sa, isa, lcp)
}

#[test]
fn suffix_array_of_banana() {
    assert_eq!(suffix_array(BANANA), vec![6, 5, 3, 1, 0, 4, 2]);
    assert_eq!(suffix_array(b""), Vec::<i32>::new());
    assert_eq!(suffix_array(b"a"), vec![0]);
    assert_eq!(suffix_array(b"aa"), vec![1, 0]);
}

#[test]
fn inverse_permutation_of_banana() {
    let sa = suffix_array(BANANA);
    let isa = inverse_permutation(sa.as_slice());
    assert_eq!(isa, vec![4, 3, 6, 2, 5, 1, 0]);
    for i in 0..sa.len() {
        assert_eq!(isa[sa[i] as usize] as usize, i);
        assert_eq!(sa[isa[i] as usize] as usize, i);
    }
    assert_eq!(inverse_permutation(&[]), Vec::<i32>::new());
    assert_eq!(inverse_permutation(&[2, 0, 1]), vec![1, 2, 0]);
}

#[test]
fn rank_arrays_of_banana() {
    let sa = suffix_array(BANANA);
    let phi = compute_phi(sa.as_slice());
    assert_eq!(phi, vec![1, 3, 4, 5, 0, 6, 2]);
    let plcp = compute_plcp(BANANA, phi.as_slice());
    assert_eq!(plcp, vec![0, 3, 2, 1, 0, 0, 0]);
    let lcp = compute_lcp(plcp.as_slice(), sa.as_slice());
    assert_eq!(lcp, vec![0, 0, 1, 3, 0, 0, 2]);
}

#[test]
fn plcp_stays_inside_the_text() {
    for text in [&b"abababab\0"[..], &b"aaaaaaaa\0"[..], &b"abracadabra\0"[..], BANANA] {
        let sa = suffix_array(text);
        let phi = compute_phi(sa.as_slice());
        let plcp = compute_plcp(text, phi.as_slice());
        for i in 0..text.len() {
            assert!((plcp[i] as usize) < text.len() - i);
        }
    }
}

#[test]
fn plcp_of_a_single_byte() {
    let sa = suffix_array(b"\0");
    let phi = compute_phi(sa.as_slice());
    assert_eq!(phi, vec![0]);
    assert_eq!(compute_plcp(b"\0", phi.as_slice()), vec![1]);
}

#[test]
fn plcp_without_sentinel() {
    let text = b"aaaa";
    let sa = suffix_array(text);
    assert_eq!(sa, vec![3, 2, 1, 0]);
    let phi = compute_phi(sa.as_slice());
    assert_eq!(phi, vec![1, 2, 3, 0]);
    assert_eq!(compute_plcp(text, phi.as_slice()), vec![3, 2, 1, 1]);
}

#[test]
fn nearest_smaller_values() {
    let sa = [6, 5, 3, 1, 0, 4, 2];
    assert_eq!(
        compute_psv(&sa),
        vec![INVALID_VALUE, INVALID_VALUE, INVALID_VALUE, INVALID_VALUE, INVALID_VALUE, 4, 4]
    );
    assert_eq!(compute_nsv(&sa), vec![1, 2, 3, 4, INVALID_VALUE, 6, INVALID_VALUE]);
    assert_eq!(compute_psv(&[7]), vec![INVALID_VALUE]);
    assert_eq!(compute_nsv(&[7]), vec![INVALID_VALUE]);
    assert_eq!(compute_psv(&[1, 1, 1]), vec![INVALID_VALUE, INVALID_VALUE, INVALID_VALUE]);
    assert_eq!(compute_psv(&[1, 2, 3]), vec![INVALID_VALUE, 0, 1]);
    assert_eq!(compute_nsv(&[3, 2, 1]), vec![1, 2, INVALID_VALUE]);
    assert_eq!(INVALID_VALUE, u32::MAX);
}

#[test]
fn range_minimum_queries() {
    let index = RangeMinimumIndex::build(vec![10, 5, 6, 4, 12, 8, 9, 3, 2, 1, 5]);
    assert_eq!(index.query(0, 2), 5);
    assert_eq!(index.query(4, 8), 3);
    assert_eq!(index.query(3, 11), 1);
    assert_eq!(index.query(0, 11), 1);
    assert_eq!(index.query(4, 5), 12);
    assert_eq!(index.query(4, 2), u32::MAX);
    assert_eq!(index.query(3, 3), u32::MAX);
}

#[test]
fn lz77_of_banana() {
    let (sa, isa, lcp) = arrays_of(BANANA);
    let psv = compute_psv(sa.as_slice());
    let nsv = compute_nsv(sa.as_slice());
    let lcprmq = RangeMinimumIndex::build(lcp.clone());
    let factors = compute_lz77(BANANA, &lcprmq, &sa, &isa, &lcp, &nsv, &psv);
    let expected = vec![
        LZFactor { pos: 98, len: 0 },
        LZFactor { pos: 97, len: 0 },
        LZFactor { pos: 110, len: 0 },
        LZFactor { pos: 2, len: 3 },
        LZFactor { pos: 0, len: 0 },
    ];
    assert_eq!(factors, expected);
    assert_eq!(lz77_factorize(BANANA), expected);
    assert_eq!(decode_lz77(&expected), BANANA);
}

#[test]
fn lz77_with_overlapping_copy() {
    let text = b"abababab\0";
    let factors = lz77_factorize(text);
    assert_eq!(
        factors,
        vec![
            LZFactor { pos: 97, len: 0 },
            LZFactor { pos: 98, len: 0 },
            LZFactor { pos: 2, len: 6 },
            LZFactor { pos: 0, len: 0 },
        ]
    );
    assert_eq!(decode_lz77(&factors), text);
}

#[test]
fn lz77_round_trip() {
    for text in [
        &b"\0"[..],
        &b"a\0"[..],
        &b"aaaaaaaaaaaaaaaa\0"[..],
        &b"abracadabra\0"[..],
        &b"mississippi\0"[..],
        &b"no sentinel at all"[..],
        &b"zzzyzzzyzzzx"[..],
    ] {
        let factors = lz77_factorize(text);
        assert_eq!(decode_lz77(&factors), text);
    }
}

#[test]
fn decode_lz77_of_nothing() {
    assert_eq!(decode_lz77(&[]), Vec::<u8>::new());
    assert_eq!(decode_lz77(&[LZFactor { pos: 300, len: 0 }]), vec![44u8]);
    assert_eq!(
        decode_lz77(&[LZFactor { pos: 7, len: 0 }, LZFactor { pos: 1, len: 4 }]),
        vec![7u8; 5]
    );
}

#[test]
fn lexparse_of_banana() {
    let sa = suffix_array(BANANA);
    let phi = compute_phi(sa.as_slice());
    let plcp = compute_plcp(BANANA, phi.as_slice());
    assert_eq!(
        compute_lexparse(BANANA, &plcp, &phi),
        vec![
            LZFactor { pos: 98, len: 0 },
            LZFactor { pos: 3, len: 3 },
            LZFactor { pos: 110, len: 0 },
            LZFactor { pos: 97, len: 0 },
            LZFactor { pos: 0, len: 0 },
        ]
    );
    assert_eq!(compute_lexparse(b"", &[], &[]), Vec::<LZFactor>::new());
}

#[test]
fn duval_ends() {
    assert_eq!(duval(b""), Vec::<usize>::new());
    assert_eq!(duval(b"a"), vec![0]);
    assert_eq!(duval(b"banana"), vec![0, 2, 4, 5]);
    assert_eq!(duval(BANANA), vec![0, 2, 4, 5, 6]);
    assert_eq!(duval(b"abracadabra"), vec![6, 9, 10]);
    assert_eq!(duval(b"aaaa"), vec![0, 1, 2, 3]);
    assert_eq!(duval(b"abab"), vec![1, 3]);
    assert_eq!(duval(b"aab"), vec![2]);
}

#[test]
fn duval_agrees_with_ranks() {
    for text in [
        &b"banana"[..],
        BANANA,
        &b"abracadabra"[..],
        &b"aaaa"[..],
        &b"abab"[..],
        &b"zyxw"[..],
        &b"x"[..],
    ] {
        let sa = suffix_array(text);
        let isa = inverse_permutation(sa.as_slice());
        assert_eq!(duval(text), isa_lyndon_factorization(&isa));
    }
    assert_eq!(isa_lyndon_factorization(&[5]), vec![0]);
    assert_eq!(isa_lyndon_factorization(&[4, 3, 6, 2, 5, 1, 0]), vec![0, 2, 4, 5, 6]);
}

#[test]
fn lyndon_factors_do_not_increase() {
    let text = b"abracadabrabanana";
    let ends = duval(text);
    let mut start = 0;
    let mut previous: Option<&[u8]> = None;
    for end in ends {
        let factor = &text[start..end + 1];
        for s in 1..factor.len() {
            assert!(factor < &factor[s..]);
        }
        if let Some(p) = previous {
            assert!(p >= factor);
        }
        previous = Some(factor);
        start = end + 1;
    }
    assert_eq!(start, text.len());
}

#[test]
fn least_rotations() {
    assert_eq!(lyndon_conjugate(b"banana"), 5);
    assert_eq!(lyndon_conjugate(b"abab"), 2);
    assert_eq!(lyndon_conjugate(b"baa"), 1);
    assert_eq!(lyndon_conjugate(b"a"), 0);
    assert_eq!(lyndon_conjugate(b"aab"), 0);
    assert_eq!(lyndon_conjugate(b"aaaa"), 3);
}

#[test]
fn necklace_prefixes() {
    assert!(is_necklace(b"abab", 4));
    assert!(is_necklace(b"abaa", 3));
    assert!(!is_necklace(b"abaa", 4));
    assert!(is_necklace(b"ba", 1));
    assert!(!is_necklace_slice(b"abaa"));
    assert!(is_necklace_slice(b"aabaab"));
}

#[test]
fn distinct_factors_and_their_first_pair() {
    assert_eq!(number_distinct_lyndon_factors(b""), 0);
    assert_eq!(number_distinct_lyndon_factors(b"ba"), 1);
    assert_eq!(number_distinct_lyndon_factors(b"cba"), 2);
    assert_eq!(number_distinct_lyndon_factors(b"abab"), 1);
    assert_eq!(number_distinct_lyndon_factors(b"acab"), 1);
    assert_eq!(number_distinct_lyndon_factors(b"bacab"), 3);
}

#[test]
fn bwt_of_banana() {
    assert_eq!(bwt_from_text_by_sa(&BANANA.to_vec()), b"annb\0aa");
    assert_eq!(bwt_from_sa(BANANA, &vec![6, 5, 3, 1, 0, 4, 2]), b"annb\0aa");
    assert_eq!(bwt_from_sa(b"abc", &vec![0, 1, 2]), b"cab");
    assert_eq!(bwt_from_sa(b"abc", &vec![3, 4, 5, 9]), b"cab");
    assert_eq!(bwt_by_matrix_naive(b"banana"), b"nnbaaa");
    assert_eq!(bwt_by_matrix(b"banana"), b"nnbaaa");
    assert_eq!(bwt_by_matrix_naive(b"abab"), b"bbaa");
    assert_eq!(bwt_by_matrix(b"abab"), b"bbaa");
    assert_eq!(bwt_by_matrix_naive(b""), b"");
    assert_eq!(bwt_by_matrix_naive(b"x"), b"x");
    assert_eq!(bwt_by_matrix(b"x"), b"x");
}

#[test]
fn bwt_by_matrix_both_ways() {
    for text in [
        &b"abracadabra"[..],
        &b"mississippi"[..],
        &b"aaaaaa"[..],
        &b"abcabcabc"[..],
        &b"ba"[..],
        &b"zyx"[..],
    ] {
        assert_eq!(bwt_by_matrix(text), bwt_by_matrix_naive(text));
    }
}

#[test]
fn sorted_rotations_keep_ties_in_order() {
    assert_eq!(sorted_rotations(b"abab"), vec![0, 2, 1, 3]);
    assert_eq!(sorted_rotations(b"aaa"), vec![0, 1, 2]);
    assert_eq!(sorted_rotations(b"banana"), vec![5, 3, 1, 0, 4, 2]);
    assert_eq!(sorted_rotations(b""), Vec::<usize>::new());
}

#[test]
fn comparisons() {
    assert_eq!(compare_rotations(b"abab", 0, 2), Ordering::Equal);
    assert_eq!(compare_rotations(b"abab", 0, 1), Ordering::Less);
    assert_eq!(compare_rotations(b"abab", 3, 2), Ordering::Greater);
    assert_eq!(compare_rotations(b"baa", 1, 2), Ordering::Less);
    assert_eq!(compare_suffixes(b"abab", 0, 2), Ordering::Greater);
    assert_eq!(compare_suffixes(b"abab", 2, 0), Ordering::Less);
    assert_eq!(compare_suffixes(b"abab", 1, 1), Ordering::Equal);
    assert_eq!(compare_suffixes(b"abab", 4, 3), Ordering::Less);
    assert_eq!(compare_suffixes(b"abab", 1, 2), Ordering::Greater);
    let first = Conjugate { index: 0, lyndon_start: 0, lyndon_end: 1 };
    let second = Conjugate { index: 0, lyndon_start: 2, lyndon_end: 3 };
    let third = Conjugate { index: 1, lyndon_start: 0, lyndon_end: 1 };
    let fourth = Conjugate { index: 0, lyndon_start: 4, lyndon_end: 4 };
    assert_eq!(compare_conjugates(b"ababa", &first, &second), Ordering::Equal);
    assert_eq!(compare_conjugates(b"ababa", &first, &third), Ordering::Less);
    assert_eq!(compare_conjugates(b"ababa", &third, &fourth), Ordering::Greater);
    assert_eq!(compare_conjugates(b"ababa", &fourth, &first), Ordering::Less);
}

#[test]
fn naive_suffix_array() {
    assert_eq!(suffixarray_naive(b"banana"), vec![5, 3, 1, 0, 4, 2]);
    assert_eq!(suffixarray_naive(BANANA), vec![6, 5, 3, 1, 0, 4, 2]);
    assert_eq!(suffixarray_naive(b""), Vec::<usize>::new());
    for text in [&b"abracadabra"[..], &b"aaaa"[..], &b"mississippi\0"[..]] {
        let naive: Vec<i32> = suffixarray_naive(text).iter().map(|&p| p as i32).collect();
        assert_eq!(naive, suffix_array(text));
    }
}

#[test]
fn bijective_bwt() {
    assert_eq!(bbwt_naive(b"banana"), b"annbaa");
    assert_eq!(bbwt_naive(b"abracadabra"), b"ardrcaaaabb");
    assert_eq!(bbwt_naive(b"a"), b"a");
    assert_eq!(bbwt_naive(b"ab"), b"ba");
    assert_eq!(bbwt_naive(b"ba"), b"ab");
    assert_eq!(bbwt_naive(b"abab"), b"bbaa");
}

#[test]
fn bwt_and_bbwt_of_a_lyndon_word_agree() {
    for text in [&b"aab"[..], &b"abracadabrb"[..], &b"aabab"[..]] {
        assert_eq!(duval(text), vec![text.len() - 1]);
        assert_eq!(bbwt_naive(text), bwt_by_matrix_naive(text));
    }
}

#[test]
fn borders_and_periods() {
    assert_eq!(border_array(b"abacaba"), vec![0, 0, 0, 1, 0, 1, 2, 3]);
    assert_eq!(border_array(b"abab"), vec![0, 0, 0, 1, 2]);
    assert_eq!(border_array(b"aaaa"), vec![0, 0, 1, 2, 3]);
    assert_eq!(border_array(b""), vec![0]);
    assert_eq!(smallest_period(&border_array(b"abacaba")), 4);
    assert_eq!(smallest_period(&border_array(b"abab")), 2);
    assert_eq!(smallest_period(&border_array(b"aaaa")), 1);
    assert_eq!(smallest_period(&border_array(b"abc")), 3);
    assert_eq!(smallest_period(&[0]), 0);
    assert!(is_primitive(b""));
    assert!(is_primitive(b"a"));
    assert!(is_primitive(b"aba"));
    assert!(is_primitive(b"abacaba"));
    assert!(is_primitive(b"ababa"));
    assert!(!is_primitive(b"abab"));
    assert!(!is_primitive(b"aaaa"));
    assert!(!is_primitive(b"abcabc"));
}

#[test]
fn minimal_unique_substrings() {
    let (sa, isa, lcp) = arrays_of(BANANA);
    assert_eq!(get_mus(&sa, &isa, &lcp), vec![(0, 1), (2, 3)]);
    assert_eq!(mus_of_text(BANANA), vec![(0, 1), (2, 3)]);
    assert_eq!(mus_of_text(b"abab\0"), vec![(1, 2)]);
    assert_eq!(mus_of_text(b"a\0"), vec![(0, 1)]);
    assert_eq!(get_mus(&[0], &[0], &[1]), Vec::<(usize, usize)>::new());
}

fn node(depth: u32, begin: u32, end: u32) -> LCPInterval {
    LCPInterval { depth, begin, end }
}

#[test]
fn intervals_of_banana() {
    let (sa, _, lcp) = arrays_of(BANANA);
    let edges = lcp_intervals(BANANA, &sa, &lcp);
    let expected = vec![
        SuffixEdge { parent: node(3, 2, 3), label: b'n', child: node(5, 3, 3) },
        SuffixEdge { parent: node(1, 1, 3), label: b'n', child: node(3, 2, 3) },
        SuffixEdge { parent: node(0, 0, 6), label: b'a', child: node(1, 1, 3) },
        SuffixEdge { parent: node(0, 0, 6), label: b'b', child: node(6, 4, 4) },
        SuffixEdge { parent: node(2, 5, 6), label: b'n', child: node(4, 6, 6) },
        SuffixEdge { parent: node(0, 0, 6), label: b'n', child: node(2, 5, 6) },
        SuffixEdge { parent: node(0, 0, 6), label: 0, child: node(0, 0, 6) },
    ];
    assert_eq!(edges, expected);
    for edge in edges {
        assert!(edge.parent.begin <= edge.child.begin);
        assert!(edge.child.end <= edge.parent.end);
        assert!(edge.parent.depth <= edge.child.depth);
        assert_eq!(
            edge.label,
            BANANA[sa[edge.child.begin as usize] as usize + edge.parent.depth as usize]
        );
    }
}

#[test]
fn intervals_of_a_single_sentinel() {
    let edges = lcp_intervals(b"\0", &[0], &[1]);
    assert_eq!(
        edges,
        vec![SuffixEdge { parent: node(0, 0, 0), label: 0, child: node(0, 0, 0) }]
    );
}

#[test]
fn attractors() {
    assert!(is_attractor(BANANA, &[0, 1, 2, 6]));
    assert!(!is_attractor(BANANA, &[0, 2]));
    assert!(!is_attractor(BANANA, &[]));
    assert!(is_attractor(b"abab\0", &[0, 1, 4]));
    assert!(!is_attractor(b"abab\0", &[0]));
    assert!(is_attractor(b"\0", &[0]));
    assert!(!is_attractor(b"\0", &[]));
    assert!(is_attractor(BANANA, &[0, 1, 2, 3, 4, 5, 6]));
    assert!(is_attractor(BANANA, &[6, 2, 1, 0, 0]));
}

#[test]
fn uncovered_substrings_are_reported() {
    assert_eq!(uncovered_substrings(BANANA, &[0, 1, 2, 6]), Vec::<(usize, usize)>::new());
    assert_eq!(uncovered_substrings(BANANA, &[0, 2]), vec![(5, 1)]);
    assert_eq!(
        uncovered_substrings(BANANA, &[0]),
        vec![(1, 4), (3, 2), (5, 1), (2, 3), (4, 1)]
    );
    assert_eq!(uncovered_substrings(b"abab\0", &[0]), vec![(1, 2), (3, 1)]);
    assert_eq!(uncovered_substrings(b"abab\0", &[1, 4]), vec![(2, 1)]);
}

#[test]
fn runs_sigma_and_move_to_front() {
    assert_eq!(number_of_runs(b""), 0);
    assert_eq!(number_of_runs(b"a"), 1);
    assert_eq!(number_of_runs(b"aaabbbaaa"), 3);
    assert_eq!(number_of_runs(b"abab"), 4);
    assert_eq!(count_sigma(b"mississippi"), 4);
    let all: Vec<u8> = (0..255u8).collect();
    assert_eq!(count_sigma(&all), 255);
    assert_eq!(mtf_vector(b""), b"");
    assert_eq!(mtf_vector(&[0, 0, 1, 1, 0]), vec![0, 0, 1, 0, 1]);
    assert_eq!(mtf_vector(&[254, 254, 0]), vec![254, 0, 1]);
    let mut output = vec![9u8];
    mtf(b"aa", &mut output);
    assert_eq!(output, vec![9, b'a', 0]);
}

#[test]
fn run_length_codes() {
    assert_eq!(rle_text(b""), Vec::<(u8, usize)>::new());
    assert_eq!(rle_text(b"aaabcc"), vec![(b'a', 3), (b'b', 1), (b'c', 2)]);
    assert_eq!(rle(b""), b"");
    assert_eq!(rle(b"aaabcc"), vec![b'a', 2, b'b', 0, b'c', 1]);
    assert_eq!(rle(&vec![7u8; 255]), vec![7, 254]);
    assert_eq!(rle(&vec![7u8; 257]), vec![7, 0]);
    assert_eq!(rle_zero(b""), b"");
    assert_eq!(rle_zero(b"abc"), b"abc");
    assert_eq!(rle_zero(b"a000"), vec![b'a', b'0', 3]);
    assert_eq!(rle_zero(b"000"), vec![b'0', 3]);
    assert_eq!(rle_zero(b"a00bc"), vec![b'a', b'0', 1, b'c']);
    assert_eq!(rle_zero(b"0a"), vec![b'0', 0]);
}

#[test]
fn escaping() {
    let from = [0u8, 1];
    let to = [b'x', b'y'];
    let esc = b'\\';
    assert_eq!(escape(b"a\0b\x01\\", esc, &from, &to), b"a\\xb\\y\\\\");
    assert_eq!(escape(b"", esc, &from, &to), b"");
    assert_eq!(
        unescape(b"a\\xb\\y\\\\", usize::MAX, esc, &from, &to),
        Some(b"a\0b\x01\\".to_vec())
    );
    assert_eq!(unescape(b"a\\xb\\y\\\\", 2, esc, &from, &to), Some(b"a\0".to_vec()));
    assert_eq!(unescape(b"a\\xb", 0, esc, &from, &to), Some(Vec::new()));
    assert_eq!(unescape(b"ab\\", usize::MAX, esc, &from, &to), None);
    assert_eq!(unescape(b"a\\zb", usize::MAX, esc, &from, &to), None);
    assert_eq!(escape(b"aa", esc, &[b'a', b'a'], &[b'x', b'y']), b"\\y\\y");
    for text in [&b"plain"[..], &b"\\\\\0\0\x01"[..], &b"x\\y"[..]] {
        let written = escape(text, esc, &from, &to);
        assert_eq!(unescape(&written, text.len(), esc, &from, &to), Some(text.to_vec()));
    }
}

#[test]
fn small_helpers() {
    assert_eq!(bit_size(0), 0);
    assert_eq!(bit_size(1), 1);
    assert_eq!(bit_size(2), 2);
    assert_eq!(bit_size(255), 8);
    assert_eq!(bit_size(256), 9);
    assert_eq!(bit_size(usize::MAX), usize::BITS as u8);
    let name = Some(String::from("input.txt"));
    assert_eq!(stringopt_stropt(&name), Some("input.txt"));
    assert_eq!(stringopt_stropt(&None), None);
    assert_eq!(get_filename(&name), "input.txt");
    assert_eq!(get_filename(&None), "none");
    assert!(second_criteria(b"0111", b"0011"));
    assert!(!second_criteria(b"0011", b"0011"));
    assert!(!second_criteria(b"000", b""));
    assert_eq!(binary_vector_to_str(&[0, 1, 1, 0, 7]), "abbab");
    assert_eq!(binary_vector_to_str(&[]), "");
}

#[test]
fn test_strings() {
    let expected: Vec<Vec<u8>> = vec![
        vec![0],
        vec![2, 0],
        vec![2, 0],
        vec![1, 2, 0],
        vec![1, 2, 0],
        vec![2, 2, 0],
        vec![2, 2, 0],
        vec![1, 1, 2, 0],
    ];
    let mut generator = RandomStringGenerator::new(0..16, 1);
    let mut factory = StringTestFactory::new(0..16, 1);
    for text in expected {
        assert_eq!(generator.next(), Some(text.clone()));
        assert_eq!(factory.next(), Some(text));
    }
    assert_eq!(generator.next(), None);
    assert_eq!(generator.next(), None);
    assert_eq!(factory.next(), None);
    assert_eq!(RandomStringGenerator::new(0..0, 1).next(), None);
    assert_eq!(RandomStringGenerator::new(5..3, 1).next(), None);
    assert_eq!(RandomStringGenerator::new(15..32, 2).next(), Some(vec![1, 0]));
    assert_eq!(RandomStringGenerator::new(99..200, 2).next(), Some(vec![2, 3, 0]));
    assert_eq!(RandomStringGenerator::new(254..512, 2).next(), Some(vec![4, 4, 4, 0]));
}

#[test]
fn lyndon_words_in_order() {
    let mut generator = LyndonWordGenerator::new(3, 2);
    let mut words = Vec::new();
    while let Some(word) = generator.next() {
        words.push(word);
    }
    assert_eq!(words, vec![vec![0], vec![0, 0, 1], vec![0, 1], vec![0, 1, 1], vec![1]]);
    assert_eq!(generator.next(), None);
    let mut generator = LyndonWordGenerator::new(2, 3);
    let mut words = Vec::new();
    while let Some(word) = generator.next() {
        words.push(word);
    }
    assert_eq!(
        words,
        vec![vec![0], vec![0, 1], vec![0, 2], vec![1], vec![1, 2], vec![2]]
    );
    assert_eq!(LyndonWordGenerator::new(0, 2).next(), None);
    let mut single = LyndonWordGenerator::new(4, 1);
    assert_eq!(single.next(), Some(vec![0]));
    assert_eq!(single.next(), None);
}

#[test]
fn binary_strings_and_conjugates() {
    let mut generator = BinaryStringGenerator::new(3);
    assert_eq!(generator.next(), Some(b"000".to_vec()));
    assert_eq!(generator.next(), Some(b"100".to_vec()));
    assert_eq!(generator.next(), Some(b"010".to_vec()));
    assert_eq!(generator.next(), Some(b"110".to_vec()));
    assert_eq!(BinaryStringGenerator::new(0).next(), Some(Vec::new()));
    let mut last = BinaryStringGenerator { m_length: 2, m_rank: u64::MAX };
    assert_eq!(last.next(), None);
    let mut rotations = ConjugateIterator::new(b"abc");
    assert_eq!(rotations.next(), Some(b"abc".to_vec()));
    assert_eq!(rotations.next(), Some(b"bca".to_vec()));
    assert_eq!(rotations.next(), Some(b"cab".to_vec()));
    assert_eq!(rotations.next(), None);
    assert_eq!(ConjugateIterator::new(b"").next(), None);
}

#[test]
fn words() {
    assert_eq!(fibonacci(0), b"a");
    assert_eq!(fibonacci(1), b"a");
    assert_eq!(fibonacci(2), b"ab");
    assert_eq!(fibonacci(5), b"abaababa");
    assert_eq!(fibonacci(6), b"abaababaabaab");
    assert_eq!(fibonacci_number(0), 1);
    assert_eq!(fibonacci_number(1), 1);
    assert_eq!(fibonacci_number(6), 13);
    assert_eq!(fibonacci_number(20), 10946);
    assert_eq!(thuemorse(0), b"a");
    assert_eq!(period_doubling_sequence(0), b"a");
    assert_eq!(period_doubling(b'a'), (b'a', b'b'));
    assert_eq!(period_doubling(b'b'), (b'a', b'a'));
    assert_eq!(reverse(b'a'), b'b');
    assert_eq!(reverse(b'b'), b'a');
    assert_eq!(reverse(b'z'), b'a');
    assert_eq!(two_to(0), 1);
    assert_eq!(two_to(10), 1024);
    assert_eq!(kolakoski(0), b"22");
    assert_eq!(kolakoski(3), b"221121221");
    assert_eq!(paperfolding(5).len(), 16);
    assert_eq!(to_binary(b"dbca"), b"11011000");
    assert_eq!(to_binary(b""), b"");
}

#[test]
fn de_bruijn_sequences() {
    assert_eq!(binary_debruijn(1), b"ba");
    assert_eq!(binary_debruijn(2), b"bbaa");
    assert_eq!(binary_debruijn(3), b"bbbabaaa");
    assert_eq!(binary_debruijn(4), b"bbbbabbaababaaaa");
    let sequence = binary_debruijn(4);
    let mut seen = std::collections::HashSet::new();
    for start in 0..16 {
        let window: Vec<u8> = (0..4).map(|k| sequence[(start + k) % 16]).collect();
        assert!(seen.insert(window));
    }
    assert_eq!(binary_debruijn(5), b"bbbbbabbbaabbababaabaaaaa");
    assert_eq!(binary_debruijn(6).len(), 41);
}

#[test]
fn enumerations() {
    let mut indices = vec![0usize, 0];
    let mut words = vec![word_of_indices(&indices)];
    while next_indices(&mut indices, 3) {
        words.push(word_of_indices(&indices));
    }
    let expected: Vec<&[u8]> = vec![b"aa", b"ab", b"ac", b"ba", b"bb", b"bc", b"ca", b"cb", b"cc"];
    assert_eq!(words, expected);
    assert_eq!(indices, vec![0, 0]);
    let mut none: Vec<usize> = Vec::new();
    assert!(!next_indices(&mut none, 3));
    assert_eq!(number_to_word(0, 3, 4), b"aaa");
    assert_eq!(number_to_word(6, 3, 4), b"cba");
    assert_eq!(number_to_word(27, 2, 4), b"dc");
    assert_eq!(number_to_word(5, 0, 2), b"");
}

#[test]
fn same_input_same_output() {
    let text = b"abracadabra\0";
    assert_eq!(suffix_array(text), suffix_array(text));
    assert_eq!(lz77_factorize(text), lz77_factorize(text));
    assert_eq!(duval(text), duval(text));
    assert_eq!(bbwt_naive(text), bbwt_naive(text));
    assert_eq!(bwt_by_matrix_naive(text), bwt_by_matrix_naive(text));
    assert_eq!(uncovered_substrings(text, &[3]), uncovered_substrings(text, &[3]));
    assert_eq!(mus_of_text(text), mus_of_text(text));
}
