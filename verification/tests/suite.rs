use stringology::attractor::is_attractor;
use stringology::border::{border_array, smallest_period};
use stringology::bwt::{bwt_by_matrix, bwt_by_matrix_naive, bwt_from_text_by_sa};
use stringology::codec::{count_sigma, mtf_vector, number_of_runs};
use stringology::generators::{RandomStringGenerator, StringTestFactory};
use stringology::lyndon::{
    duval, is_necklace_slice, isa_lyndon_factorization, lyndon_conjugate,
    number_distinct_lyndon_factors,
};
use stringology::lz77::{compute_lz77, decode_lz77};
use stringology::mus::get_mus;
use stringology::nearest::{compute_nsv, compute_psv};
use stringology::range_min::RangeMinimumIndex;
use stringology::rank_arrays::{compute_lcp, compute_phi, compute_plcp, inverse_permutation};
use stringology::suffix_sort::suffix_array;
use stringology::words::{
    fibonacci, kolakoski, paperfolding, period_doubling_sequence, thuemorse, CHR_1, CHR_2,
};

const MAX_TEST_ITER: usize = 4096;

fn fibonacci_word(k: u8) -> Vec<u8> {
    fibonacci(k + 1)
}

fn fibonacci_number(k: u8) -> usize {
    stringology::words::fibonacci_number(k + 1)
}

#[test]
fn mtf_test_mtf() {
    assert_eq!(mtf_vector(b"aa".as_ref()), [b'a', 0u8]);
    assert_eq!(mtf_vector(b"ba".as_ref()), [b'b', b'a' + 1]);
    assert_eq!(mtf_vector(b"abab".as_ref()), [b'a', b'b', 1, 1]);
    assert_eq!(mtf_vector(b"abba".as_ref()), [b'a', b'b', 0, 1]);
    assert_eq!(mtf_vector(b"aabb".as_ref()), [b'a', 0, b'b', 0]);
}

#[test]
fn count_z_test_compute_lz77() {
    let mut factory = StringTestFactory::new(0..MAX_TEST_ITER, 1);
    while let Some(text) = factory.next() {
        let sa = suffix_array(&text);
        let isa = inverse_permutation(sa.as_slice());
        let psv = compute_psv(sa.as_slice());
        let nsv = compute_nsv(sa.as_slice());
        let lcp = {
            let phi = compute_phi(sa.as_slice());
            let plcp = compute_plcp(text.as_slice(), phi.as_slice());
            compute_lcp(plcp.as_slice(), sa.as_slice())
        };
        let lcprmq = RangeMinimumIndex::build(lcp.clone());
        let factors = compute_lz77(&text, &lcprmq, &sa, &isa, &lcp, &nsv, &psv);
        println!("LZ77 {:?}", factors);
        assert_eq!(text, decode_lz77(factors.as_slice()));
    }
}

fn get_mus_from_text(text: &[u8]) -> Vec<(usize, usize)> {
    let sa = suffix_array(text);
    let isa = inverse_permutation(sa.as_slice());
    let lcp = {
        let phi = compute_phi(sa.as_slice());
        let plcp = compute_plcp(text, phi.as_slice());
        compute_lcp(plcp.as_slice(), sa.as_slice())
    };
    get_mus(sa.as_slice(), isa.as_slice(), lcp.as_slice())
}

#[test]
fn test_mus_fibonacci() {
    for i in 4..16 {
        let mut text = fibonacci_word(i);
        text.push(0);
        let mus = get_mus_from_text(text.as_slice());
        assert_eq!(mus.len(), 2);
        assert_eq!(mus[0].0, fibonacci_number(i - 2) as usize - 1);
        assert_eq!(mus[0].1, fibonacci_number(i - 3));
        assert_eq!(mus[1].0, fibonacci_number(i - 1) as usize - 1);
        assert_eq!(mus[1].1, fibonacci_number(i - 2));
    }
}

#[test]
fn test_duval() {
    let mut factory = RandomStringGenerator::new(0..MAX_TEST_ITER, 1);
    while let Some(text) = factory.next() {
        let factors = duval(&text);
        assert!(!text[..text.len() - 1].into_iter().any(|&x| x == 0));
        let sa = suffix_array(&text);
        let isa = inverse_permutation(sa.as_slice());
        assert_eq!(factors, isa_lyndon_factorization(&isa));
    }
}

#[test]
fn test_bwt_from_text_by_sa() {
    for i in 1..8 {
        let text = fibonacci(2 * i + 1);
        let bwt = bwt_from_text_by_sa(&text);
        let runs = number_of_runs(bwt.as_slice());
        assert_eq!(runs, 2);
    }
}

#[test]
fn test_bwt_by_matrix() {
    let mut factory = RandomStringGenerator::new(0..MAX_TEST_ITER, 1);
    while let Some(text) = factory.next() {
        if text.len() < 2 {
            continue;
        }
        let naive = bwt_by_matrix_naive(&text[0..text.len() - 1]);
        let clever = bwt_by_matrix(&text[0..text.len() - 1]);
        assert_eq!(naive, clever);
    }
}

#[test]
fn test_lyndon_conjugate() {
    let mut factory = RandomStringGenerator::new(0..MAX_TEST_ITER, 1);
    while let Some(text) = factory.next() {
        let n = text.len();
        let lconjugate = lyndon_conjugate(&text);
        assert!(lconjugate < n);
        for conj in 0..text.len() {
            if conj == lconjugate {
                continue;
            }
            for len in 0..text.len() {
                let lcharpos = (lconjugate + len) % n;
                let ccharpos = (conj + len) % n;
                let lchar = text[lcharpos];
                let cchar = text[ccharpos];
                if lchar < cchar {
                    break;
                }
                assert_eq!(lchar, cchar);
            }
        }
    }
}

#[test]
fn test_border_array() {
    let mut factory = RandomStringGenerator::new(0..MAX_TEST_ITER, 1);
    while let Some(text) = factory.next() {
        let border = border_array(&text);
        assert_eq!(border[0], 0);
        assert_eq!(border[1], 0);
        for i in 2..text.len() {
            for b in 0..border[i] {
                assert_eq!(text[b], text[i - border[i] + b]);
            }
        }
    }
}

#[test]
fn test_period() {
    let mut factory = RandomStringGenerator::new(0..MAX_TEST_ITER, 1);
    while let Some(text) = factory.next() {
        let border = border_array(&text);
        let period = smallest_period(&border);
        for i in 0..text.len() - period {
            assert_eq!(text[i], text[i + period]);
        }
    }
}

#[test]
fn test_count_sigma() {
    assert_eq!(count_sigma(b""), 0);
    assert_eq!(count_sigma(b"aaa"), 1);
    assert_eq!(count_sigma(b"aba"), 2);
    assert_eq!(count_sigma(b"abc"), 3);
}

#[test]
fn test_is_necklace() {
    assert!(is_necklace_slice(b"a"));
    assert!(is_necklace_slice(b"aa"));
    assert!(is_necklace_slice(b"ab"));
    assert!(is_necklace_slice(b"aaa"));
    assert!(is_necklace_slice(b"aba"));
    assert!(is_necklace_slice(b"aaba"));
    assert!(is_necklace_slice(b"abab"));
    assert!(is_necklace_slice(b"ababa"));
    assert!(!is_necklace_slice(b"ba"));
    assert!(!is_necklace_slice(b"bab"));
    assert!(!is_necklace_slice(b"bba"));
    assert!(!is_necklace_slice(b"bbba"));
}

#[test]
fn test_period_doubling() {
    for i in 5..16 {
        let mut text = period_doubling_sequence(i);
        let attractor = [3 * (1 << (i - 4)) - 1, 3 * (1 << (i - 3)) - 1];
        println!("len={} -> attr = {:?}", text.len(), attractor);
        text.push(0u8);
        assert!(is_attractor(text.as_slice(), &attractor));
    }
}

#[test]
fn test_fibonacci_attractor() {
    for i in 3..16 {
        let attractor = [
            stringology::words::fibonacci_number(i - 1) as u64 - 1,
            stringology::words::fibonacci_number(i - 1) as u64 - 2,
        ];
        let mut text = fibonacci(i);
        text.push(0u8);
        assert!(is_attractor(text.as_slice(), &attractor));
    }
}

#[test]
fn test_number_distinct_lyndon_factors() {
    assert_eq!(1, number_distinct_lyndon_factors(b"a"));
    assert_eq!(1, number_distinct_lyndon_factors(b"aa"));
    assert_eq!(1, number_distinct_lyndon_factors(b"aaaaaaaaa"));
    assert_eq!(2, number_distinct_lyndon_factors(b"ababa"));
    assert_eq!(2, number_distinct_lyndon_factors(b"abababaaaa"));
    assert_eq!(2, number_distinct_lyndon_factors(b"abababa"));
    assert_eq!(3, number_distinct_lyndon_factors(b"abracadabra"));
    assert_eq!(3, number_distinct_lyndon_factors(b"ababbababbabababaaaa"));
    assert_eq!(4, number_distinct_lyndon_factors(b"ababbababbbababbababbabababaaaa"));
}

#[test]
fn test_perioddoubling() {
    assert_eq!(b"a", period_doubling_sequence(1).as_slice());
    assert_eq!(b"ab", period_doubling_sequence(2).as_slice());
    assert_eq!(b"abaa", period_doubling_sequence(3).as_slice());
    assert_eq!(b"abaaabab", period_doubling_sequence(4).as_slice());
    assert_eq!(b"abaaabababaaabaa", period_doubling_sequence(5).as_slice());
    assert_eq!(
        b"abaaabababaaabaaabaaabababaaabab",
        period_doubling_sequence(6).as_slice()
    );
}

#[test]
fn test_thuemorse() {
    assert_eq!(b"ab", thuemorse(1).as_slice());
    assert_eq!(b"abba", thuemorse(2).as_slice());
    assert_eq!(b"abbabaab", thuemorse(3).as_slice());
    assert_eq!(b"abbabaabbaababba", thuemorse(4).as_slice());
}

#[test]
fn test_kolakoski() {
    let prefix = [
        CHR_2, CHR_2, CHR_1, CHR_1, CHR_2, CHR_1, CHR_2, CHR_2, CHR_1, CHR_2, CHR_2, CHR_1, CHR_1,
        CHR_2, CHR_1, CHR_1, CHR_2, CHR_2, CHR_1, CHR_2, CHR_1, CHR_1, CHR_2, CHR_1, CHR_2, CHR_2,
        CHR_1, CHR_1, CHR_2, CHR_1, CHR_1, CHR_2, CHR_1, CHR_2, CHR_2, CHR_1, CHR_2, CHR_2, CHR_1,
        CHR_1, CHR_2, CHR_1, CHR_2, CHR_2, CHR_1, CHR_2, CHR_1, CHR_1, CHR_2, CHR_1, CHR_1, CHR_2,
        CHR_2, CHR_1, CHR_2, CHR_2, CHR_1, CHR_1, CHR_2, CHR_1, CHR_2, CHR_2, CHR_1, CHR_2, CHR_2,
        CHR_1, CHR_1, CHR_2, CHR_1, CHR_1, CHR_2, CHR_1, CHR_2, CHR_2, CHR_1, CHR_2, CHR_1, CHR_1,
        CHR_2, CHR_2, CHR_1, CHR_2, CHR_2, CHR_1, CHR_1, CHR_2, CHR_1, CHR_2, CHR_2, CHR_1, CHR_2,
        CHR_2, CHR_1, CHR_1, CHR_2, CHR_1, CHR_1, CHR_2, CHR_2, CHR_1, CHR_2, CHR_1, CHR_1, CHR_2,
        CHR_1,
    ];
    for i in 0.. {
        let s = kolakoski(i);
        if s.len() > prefix.len() {
            break;
        }
        assert_eq!(s.as_slice(), &prefix[0..s.len()]);
    }
}

#[test]
fn test_paperfolding() {
    assert_eq!(b"d", paperfolding(1).as_slice());
    assert_eq!(b"db", paperfolding(2).as_slice());
    assert_eq!(b"dbcb", paperfolding(3).as_slice());
    assert_eq!(b"dbcbdacb", paperfolding(4).as_slice());
}
