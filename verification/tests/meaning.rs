use stringology::attractor::is_attractor;
use stringology::border::is_primitive;
use stringology::lz77::lz77_factorize;
use stringology::mus::mus_of_text;

fn occurrences(text: &[u8], pattern: &[u8]) -> Vec<usize> {
    (0..text.len() + 1 - pattern.len())
        .filter(|&j| &text[j..j + pattern.len()] == pattern)
        .collect()
}

fn covers_every_substring(text: &[u8], positions: &[u64]) -> bool {
    let n = text.len() - 1;
    for i in 0..n {
        for l in 1..n - i + 1 {
            let covered = occurrences(text, &text[i..i + l])
                .iter()
                .any(|&j| positions.iter().any(|&g| j as u64 <= g && g < (j + l) as u64));
            if !covered {
                return false;
            }
        }
    }
    true
}

fn texts() -> Vec<Vec<u8>> {
    let mut texts = Vec::new();
    for length in 1..7usize {
        for number in 0..(1usize << length) {
            let mut text: Vec<u8> =
                (0..length).map(|k| if number >> k & 1 == 0 { b'a' } else { b'b' }).collect();
            text.push(0);
            texts.push(text);
        }
    }
    texts
}

#[test]
fn attractors_cover_every_substring() {
    for text in texts() {
        let n = text.len() as u64;
        for set in 0..(1u64 << n) {
            let positions: Vec<u64> = (0..n).filter(|&g| set >> g & 1 == 1).collect();
            assert_eq!(
                is_attractor(&text, &positions),
                covers_every_substring(&text, &positions)
            );
        }
    }
}

#[test]
fn minimal_unique_substrings_are_minimal_and_unique() {
    for text in texts() {
        let n = text.len() - 1;
        let mut expected = Vec::new();
        for i in 0..n {
            for l in 1..n - i + 1 {
                let unique = occurrences(&text, &text[i..i + l]).len() == 1;
                let left = occurrences(&text, &text[i..i + l - 1]).len() > 1;
                let right = occurrences(&text, &text[i + 1..i + l]).len() > 1;
                if unique && left && right {
                    expected.push((i, l));
                }
            }
        }
        assert_eq!(mus_of_text(&text), expected);
    }
}

#[test]
fn factors_are_longest_earlier_matches() {
    for text in texts() {
        let mut i = 0;
        for factor in lz77_factorize(&text) {
            let longest = (0..i)
                .map(|j| (0..text.len() - i).take_while(|&k| text[j + k] == text[i + k]).count())
                .max()
                .unwrap_or(0);
            assert_eq!(factor.len as usize, longest);
            if longest == 0 {
                assert_eq!(factor.pos, text[i] as u32);
                i += 1;
            } else {
                let source = i - factor.pos as usize;
                assert_eq!(&text[source..source + longest], &text[i..i + longest]);
                i += longest;
            }
        }
        assert_eq!(i, text.len());
    }
}

#[test]
fn primitive_texts_are_no_powers() {
    for text in texts() {
        let word = &text[..text.len() - 1];
        let n = word.len();
        let power = (1..n).any(|d| n % d == 0 && (0..n - d).all(|x| word[x] == word[x + d]));
        assert_eq!(is_primitive(word), !power);
    }
}
