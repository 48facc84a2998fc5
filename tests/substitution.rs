use cryptograms::ciphers::substitution::{
    aristocrat, aristocrat_with_mapping, caesar_with_shift, caeser, keyed_alphabet_of, patristocrat,
    patristocrat_k1, patristocrat_k1_with_key, patristocrat_k2_with_key, patristocrat_with_mapping,
    random_derangement, rot13, shift_mapping, substitute,
};
use rand::thread_rng;

static TEST_TEXT: &str = "abcdefghijklmnopqrstuvwxyz 0123456789-!'\".ABCDEFGHIJKLMNOPQRSTUVWXYZ";

#[test]
fn test_rot13() {
    let res = rot13(TEST_TEXT);

    assert_eq!(
        res.unwrap().ciphertext,
        "nopqrstuvwxyzabcdefghijklm 0123456789-!'\".NOPQRSTUVWXYZABCDEFGHIJKLM"
    );
}

// The step generator starting at 0 first draws 0, which Caesar rejects, and
// then 1: the shift is 1.
#[test]
fn test_caesar() {
    let res = caesar_with_shift(TEST_TEXT, 1);
    let ans = "bcdefghijklmnopqrstuvwxyza 0123456789-!'\".BCDEFGHIJKLMNOPQRSTUVWXYZA";
    assert_eq!(res.unwrap().ciphertext, ans);
}

// The step generator starting at 0 draws the alphabet shifted by one as the
// permutation, which has no fixed point.
#[test]
fn test_aristocrat() {
    let res = aristocrat_with_mapping(TEST_TEXT, &shift_mapping(1));
    let ans = "bcdefghijklmnopqrstuvwxyza 0123456789-!'\".BCDEFGHIJKLMNOPQRSTUVWXYZA";
    assert_eq!(res.unwrap().ciphertext, ans);
}

#[test]
fn test_patristocrat() {
    let res = patristocrat_with_mapping(TEST_TEXT, &shift_mapping(1));
    let ans = "bcdef ghijk lmnop qrstu vwxyz a0123 45678 9-!'\" .BCDE FGHIJ KLMNO PQRST UVWXY ZA";
    assert_eq!(res.unwrap().ciphertext, ans);
}

#[test]
fn test_patristocrat_k1() {
    let res = patristocrat_k1_with_key("bcdefghijklmnopqrstuvwxyza", "testkey");
    let ans = "tesky abcdf ghijl mnopq ruvwx z";

    assert_eq!(res.unwrap().ciphertext, ans);
}

#[test]
fn test_patristocrat_k2() {
    let res = patristocrat_k2_with_key("yzabcdefghijklmnopqrstuvwx", "testkey");
    let ans = "tesky abcdf ghijl mnopq ruvwx z";

    assert_eq!(res.unwrap().ciphertext, ans);
}

#[test]
fn keyed_alphabet_puts_key_letters_first() {
    let k = keyed_alphabet_of(&b"Test-Key".to_vec());
    assert_eq!(k, b"teskyabcdfghijlmnopqruvwxz".to_vec());
}

#[test]
fn k1_key_is_echoed_lowercase() {
    let res = patristocrat_k1_with_key("abc", "TestKey").unwrap();
    assert_eq!(res.key, Some("testkey".to_string()));
}

#[test]
fn rot13_twice_gives_the_text_back() {
    let once = rot13(TEST_TEXT).unwrap().ciphertext;
    let twice = rot13(&once).unwrap().ciphertext;
    assert_eq!(twice, TEST_TEXT);
}

fn letters_all_moved(plain: &str, cipher: &str) {
    for (p, c) in plain.bytes().zip(cipher.bytes()) {
        if p.is_ascii_alphabetic() {
            assert_ne!(p, c);
            assert_eq!(p.is_ascii_uppercase(), c.is_ascii_uppercase());
        } else {
            assert_eq!(p, c);
        }
    }
}

#[test]
fn caesar_never_shifts_by_zero() {
    let mut rng = thread_rng();
    for _ in 0..200 {
        let c = caeser(TEST_TEXT, &mut rng).unwrap().ciphertext;
        letters_all_moved(TEST_TEXT, &c);
        let shift = (c.as_bytes()[0] - b'a') as i32;
        for (p, x) in TEST_TEXT.bytes().zip(c.bytes()).filter(|(p, _)| p.is_ascii_lowercase()) {
            assert_eq!(((p - b'a') as i32 + shift) % 26, (x - b'a') as i32);
        }
    }
}

#[test]
fn random_maps_are_derangements() {
    let mut rng = thread_rng();
    for _ in 0..200 {
        let m = random_derangement(&mut rng);
        assert_eq!(m.len(), 26);
        let mut seen = [false; 26];
        for (i, &c) in m.iter().enumerate() {
            assert!(c.is_ascii_lowercase());
            assert_ne!(c, b'a' + i as u8);
            assert!(!seen[(c - b'a') as usize]);
            seen[(c - b'a') as usize] = true;
        }
    }
}

#[test]
fn aristocrat_keeps_layout_and_moves_letters() {
    let mut rng = thread_rng();
    let c = aristocrat(TEST_TEXT, &mut rng).unwrap().ciphertext;
    assert_eq!(c.len(), TEST_TEXT.len());
    letters_all_moved(TEST_TEXT, &c);
}

fn check_blocks(out: &str) {
    let bytes = out.as_bytes();
    for (i, &b) in bytes.iter().enumerate() {
        if i % 6 == 5 {
            assert_eq!(b, b' ');
        } else {
            assert!(!b.is_ascii_whitespace());
        }
    }
    assert!(bytes.last() != Some(&b' '));
}

#[test]
fn patristocrat_output_is_in_blocks_of_five() {
    let mut rng = thread_rng();
    for text in ["", "a", "abcde", "abcdef", "The quick brown fox\tjumps\nover the lazy dog"] {
        let out = patristocrat(text, &mut rng).unwrap().ciphertext;
        check_blocks(&out);
        let letters: usize = text.bytes().filter(|b| !b.is_ascii_whitespace()).count();
        assert_eq!(out.bytes().filter(|&b| b != b' ').count(), letters);
    }
}

#[test]
fn substitute_drops_whitespace_only_when_asked() {
    let m = shift_mapping(2);
    assert_eq!(substitute("a b\tc", &m, true), "c d\te");
    assert_eq!(substitute("a b\tc", &m, false), "cde");
    assert_eq!(substitute("abcdefgh ij", &m, false), "cdefg hijkl");
}

#[test]
fn keyed_patristocrat_with_corpus_word() {
    let words = vec!["zebra".to_string()];
    let mut rng = thread_rng();
    let c = patristocrat_k1("hello world", None, &words, &mut rng).unwrap();
    assert_eq!(c.key, Some("zebra".to_string()));
    check_blocks(&c.ciphertext);
}
