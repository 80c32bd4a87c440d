use stringology::bbwt::fits_comparison;
use stringology::lz77::decode_lz77;
use stringology::suffix_sort::suffix_array;
use stringology::validate::{
    check_permutation, check_positions, check_suffix_array, check_text, factorize,
    verify_attractor, InputError,
};

#[test]
fn texts_are_checked() {
    assert_eq!(check_text(b""), Err(InputError::EmptyText));
    assert_eq!(check_text(b"abc"), Err(InputError::NotSentinelTerminated));
    assert_eq!(check_text(b"ab\0c\0"), Err(InputError::NotSentinelTerminated));
    assert_eq!(check_text(b"aba"), Err(InputError::NotSentinelTerminated));
    assert_eq!(check_text(b"abc\0"), Ok(()));
    assert_eq!(check_text(b"cba!"), Ok(()));
    assert_eq!(check_text(b"\0"), Ok(()));
}

#[test]
fn permutations_are_checked() {
    assert_eq!(check_permutation(&[]), Ok(()));
    assert_eq!(check_permutation(&[0]), Ok(()));
    assert_eq!(check_permutation(&[2, 0, 1]), Ok(()));
    assert_eq!(check_permutation(&[1]), Err(InputError::NotAPermutation));
    assert_eq!(check_permutation(&[0, 0]), Err(InputError::NotAPermutation));
    assert_eq!(check_permutation(&[0, -1]), Err(InputError::NotAPermutation));
    assert_eq!(check_permutation(&[0, 1, 3]), Err(InputError::NotAPermutation));
}

#[test]
fn suffix_arrays_are_checked() {
    assert!(check_suffix_array(b"banana\0", &[6, 5, 3, 1, 0, 4, 2]));
    assert!(!check_suffix_array(b"banana\0", &[6, 5, 3, 1, 0, 2, 4]));
    assert!(!check_suffix_array(b"banana\0", &[6, 5, 3, 1, 0, 4]));
    assert!(!check_suffix_array(b"banana\0", &[6, 5, 3, 1, 0, 4, 4]));
    assert!(check_suffix_array(b"", &[]));
    assert!(check_suffix_array(b"aaa", &[2, 1, 0]));
    assert!(!check_suffix_array(b"aaa", &[0, 1, 2]));
    for text in [&b"abracadabra\0"[..], &b"mississippi"[..], &b"zzzzz"[..]] {
        assert!(check_suffix_array(text, &suffix_array(text)));
    }
}

#[test]
fn positions_are_checked() {
    assert_eq!(check_positions(&[], 0), Ok(()));
    assert_eq!(check_positions(&[0, 4, 2], 5), Ok(()));
    assert_eq!(check_positions(&[0, 5], 5), Err(InputError::PositionOutOfRange));
    assert_eq!(check_positions(&[u64::MAX], 5), Err(InputError::PositionOutOfRange));
}

#[test]
fn attractors_are_verified_or_turned_down() {
    assert_eq!(verify_attractor(b"banana\0", &[0, 1, 2, 6]), Ok(true));
    assert_eq!(verify_attractor(b"banana\0", &[0, 2]), Ok(false));
    assert_eq!(verify_attractor(b"", &[]), Err(InputError::EmptyText));
    assert_eq!(verify_attractor(b"banana", &[0]), Err(InputError::NotSentinelTerminated));
    assert_eq!(verify_attractor(b"ban\0ana\0", &[0]), Err(InputError::NotSentinelTerminated));
    assert_eq!(verify_attractor(b"banana!", &[0]), Err(InputError::SentinelNotZero));
    assert_eq!(verify_attractor(b"banana\0", &[7]), Err(InputError::PositionOutOfRange));
    assert_eq!(verify_attractor(b"banana", &[9]), Err(InputError::NotSentinelTerminated));
}

#[test]
fn factorizations_are_checked() {
    assert_eq!(factorize(b""), Err(InputError::EmptyText));
    let factors = factorize(b"abracadabra").unwrap();
    assert_eq!(decode_lz77(&factors), b"abracadabra");
}

#[test]
fn comparisons_fit() {
    assert!(fits_comparison(b""));
    assert!(fits_comparison(b"abracadabra"));
}
