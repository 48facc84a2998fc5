use cryptograms::ciphers::morse::morbit::{generate_key, map_key, morbit, morbit_with_key};
use cryptograms::ciphers::morse::pollux::{make_mapping, pollux, pollux_with};
use cryptograms::ciphers::morse::{morse_encode, morse_stream_of};
use rand::thread_rng;

const MORSE_ALPHABET: [&str; 26] = [
    ".-", "-...", "-.-.", "-..", ".", "..-.", "--.", "....", "..", ".---", "-.-", ".-..", "--",
    "-.", "---", ".--.", "--.-", ".-.", "...", "-", "..-", "...-", ".--", "-..-", "-.--", "--..",
];

#[test]
fn test_morse_encode() {
    for b in b'a'..=b'z' {
        assert_eq!(MORSE_ALPHABET[(b - b'a') as usize], morse_encode(b));
    }
}

#[test]
fn morse_encode_ignores_case() {
    assert_eq!(morse_encode(b'Q'), "--.-");
}

#[test]
fn morse_stream_separates_letters_and_words() {
    let s = morse_stream_of(&b"ab  c".to_vec());
    assert_eq!(s, b".-/-...//-.-.".to_vec());
    assert_eq!(morse_stream_of(&b"".to_vec()), Vec::<u8>::new());
}

#[test]
fn morbit_test_generate_key() {
    let mut rng = thread_rng();
    let k = generate_key(&mut rng);
    assert_eq!(k.len(), 9);
    assert!(k.iter().all(|b| b.is_ascii_lowercase()));
}

#[test]
fn test_map_key() {
    let k = map_key(&"MORSECODE".bytes().collect());

    assert_eq!(k, vec![4, 5, 7, 8, 2, 0, 6, 1, 3]);
}

#[test]
fn test_morbit() {
    let mut rng = thread_rng();
    let out = morbit("MORE BITS", Some(String::from("MORSECODE")), &mut rng);

    assert_eq!(out.unwrap().ciphertext, "32379749578158");
}

#[test]
fn morbit_other_key() {
    let out = morbit_with_key("Once upon a time", "abcdefghi").unwrap();
    assert_eq!(out.ciphertext, "56482337275356492961863");
    assert_eq!(out.key, Some("abcdefghi".to_string()));
}

#[test]
fn morbit_draws_a_key() {
    let mut rng = thread_rng();
    let out = morbit("sos", None, &mut rng).unwrap();
    let key = out.key.unwrap();
    assert_eq!(key.len(), 9);
    assert_eq!(out.ciphertext, morbit_with_key("sos", &key).unwrap().ciphertext);
}

// The step generator starting at 0 splits the digits into 1 2 3 (separator),
// 4 5 6 (dash), 7 8 9 (dot), and always picks the first digit of a group.
#[test]
fn test_pollux() {
    let inp = "ee e a";
    let order = b"1234567890".to_vec();
    let picks = vec![0u8; 64];
    let ans = pollux_with(inp, &order, &picks).unwrap();
    let expected = "7171171174";
    assert_eq!(expected, ans.ciphertext)
}

#[test]
fn test_make_mapping() {
    let mut rng = thread_rng();
    let map = make_mapping(&mut rng);
    assert_eq!(map.len(), 10);
    let mut sorted = map.clone();
    sorted.sort();
    assert_eq!(sorted, b"0123456789".to_vec());
}

#[test]
fn pollux_digits_stay_in_their_groups() {
    let mut rng = thread_rng();
    let text = "sos help";
    let stream = morse_stream_of(&text.as_bytes().to_vec());
    let out = pollux(text, &mut rng).unwrap();
    assert!(out.key.is_none());
    let digits = out.ciphertext.as_bytes();
    assert_eq!(digits.len(), stream.len());
    let mut group_of = [None; 10];
    for (&d, &s) in digits.iter().zip(stream.iter()) {
        let g = (d - b'0') as usize;
        match group_of[g] {
            None => group_of[g] = Some(s),
            Some(prev) => assert_eq!(prev, s),
        }
    }
}

#[test]
fn pollux_picks_choose_within_group() {
    let order = b"0123456789".to_vec();
    let picks = vec![2u8; 8];
    assert_eq!(pollux_with("et", &order, &picks).unwrap().ciphertext, "825");
}
