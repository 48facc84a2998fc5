use cryptograms::ciphers::{ErrorKind, Type};
use cryptograms::cryptogram::{compute_hash, frequencies, Answer, Cryptogram};
use cryptograms::quotes::{fetch_quote, Length, Quote};
use rand::thread_rng;

#[test]
fn test_frequencies() {
    let input = "aaaaabbccac";
    let output = frequencies(input);
    let mut ans = vec![0; 26];
    ans[0] = input.chars().filter(|c| *c == 'a').count() as i32;
    ans[1] = input.chars().filter(|c| *c == 'b').count() as i32;
    ans[2] = input.chars().filter(|c| *c == 'c').count() as i32;

    assert_eq!(output, ans);
}

#[test]
fn frequencies_ignore_case_and_symbols() {
    let output = frequencies("Zz-z!");
    assert_eq!(output[25], 3);
    assert_eq!(output.iter().sum::<i32>(), 3);
}

#[test]
fn hash_is_stable() {
    assert_eq!(compute_hash("abc"), compute_hash("abc"));
    assert_ne!(compute_hash("abc"), compute_hash("abd"));
}

#[test]
fn answer_keeps_fields() {
    let a = Answer::new("text".to_string(), Some("key".to_string()));
    assert_eq!(a.plaintext, "text");
    assert_eq!(a.key, Some("key".to_string()));
}

fn quotes() -> Vec<Quote> {
    vec![
        Quote::new(
            "The quick brown fox jumps over the lazy dog and the farmer's 7th chicken".to_string(),
            Some("jz9".to_string()),
        ),
        Quote::new(
            "The quick brown fox jumps over the lazy dog. Can't-I'm<>12932. Cwm fjord bank glyphs vext quiz!".to_string(),
            Some("jz9".to_string()),
        ),
    ]
}

#[test]
fn quote_length_is_counted() {
    assert_eq!(quotes()[0].length, 72);
}

#[test]
fn medium_identity_cryptogram() {
    let words = vec!["word".to_string()];
    let mut rng = thread_rng();
    let c = Cryptogram::new(None, Some(Length::Medium), Some(Type::Identity), None, &quotes(), &words, &mut rng)
        .unwrap();
    assert_eq!(
        c.ciphertext,
        "THE QUICK BROWN FOX JUMPS OVER THE LAZY DOG. CAN'T-I'M<>12932. CWM FJORD BANK GLYPHS VEXT QUIZ!"
    );
    assert_eq!(
        c.plaintext,
        "The quick brown fox jumps over the lazy dog. Can't-I'm<>12932. Cwm fjord bank glyphs vext quiz!"
    );
    assert_eq!(c.author, Some("jz9".to_string()));
    assert_eq!(c.token, compute_hash(&c.plaintext));
    assert!(c.frequencies.is_some());
}

#[test]
fn short_hill_with_valid_key() {
    let words = vec!["word".to_string()];
    let mut rng = thread_rng();
    let c = Cryptogram::new(None, Some(Length::Short), Some(Type::Hill), Some("abcd".to_string()), &quotes(), &words, &mut rng)
        .unwrap();
    assert_eq!(c.ciphertext, "HHQEIMKIRBWQFPXTUAPROAECTNEAAWYSOWAMDJHHFXRZEKSKHHHZCWEGZX");
    assert!(c.frequencies.is_none());
}

#[test]
fn short_hill_with_invalid_key() {
    let words = vec!["word".to_string()];
    let mut rng = thread_rng();
    let err = Cryptogram::new(None, Some(Length::Short), Some(Type::Hill), Some("aaa".to_string()), &quotes(), &words, &mut rng)
        .err()
        .unwrap();
    assert_eq!(err.kind, ErrorKind::KeyError);
    assert_eq!(err.error, "Key length must be a perfect square");
}

#[test]
fn no_long_quote() {
    let words = vec!["word".to_string()];
    let mut rng = thread_rng();
    assert!(fetch_quote(&quotes(), Length::Long, &mut rng).is_none());
    let err = Cryptogram::new(None, Some(Length::Long), None, None, &quotes(), &words, &mut rng)
        .err()
        .unwrap();
    assert_eq!(err.kind, ErrorKind::NoQuote);
}

#[test]
fn given_plaintext_defaults_to_identity() {
    let words = vec!["word".to_string()];
    let mut rng = thread_rng();
    let c = Cryptogram::new(Some("abc".to_string()), None, None, None, &quotes(), &words, &mut rng).unwrap();
    assert_eq!(c.ciphertext, "ABC");
    assert_eq!(c.cipher_type, Type::Identity);
    assert_eq!(c.length, Length::Medium);
    assert!(c.author.is_none());
}
