use cryptograms::ciphers::{identity, match_case, shift_letter, Cipher, ErrorKind, Type};
use rand::thread_rng;

#[test]
fn test_match_case_same_case() {
    assert_eq!(match_case(b'a', b'a'), b'a');
}

#[test]
fn test_match_case_lower() {
    let inps: Vec<u8> = (b'a'..=b'z').collect();

    for inp in inps {
        assert_eq!(
            match_case(inp, inp.to_ascii_uppercase()),
            inp.to_ascii_uppercase()
        );
    }
}

#[test]
fn test_match_case_upper() {
    let inps: Vec<u8> = (b'A'..=b'Z').collect();

    for inp in inps {
        assert_eq!(
            match_case(inp, inp.to_ascii_lowercase()),
            inp.to_ascii_lowercase()
        );
    }
}

#[test]
fn test_shift_letter() {
    let mut expected = Vec::new();
    for i in b't'..=b'z' {
        expected.push(i);
    }
    for i in b'a'..b't' {
        expected.push(i);
    }

    let initial = b't';
    for i in 0..26 {
        assert_eq!(shift_letter(initial, i), expected[i as usize]);
    }
}

#[test]
fn shift_letter_keeps_uppercase() {
    assert_eq!(shift_letter(b'Y', 3), b'B');
    assert_eq!(shift_letter(b'A', 25), b'Z');
}

#[test]
fn test_identity() {
    assert_eq!(
        identity("abcdefghijklmnopqrstuvwxyz").ciphertext,
        "abcdefghijklmnopqrstuvwxyz".to_string()
    )
}

fn corpus() -> Vec<String> {
    vec!["sample".to_string(), "quartz".to_string()]
}

#[test]
fn encrypt_dispatches_to_each_cipher() {
    let words = corpus();
    let mut rng = thread_rng();
    let id = Cipher::encrypt("Hello, World", Type::Identity, None, &words, &mut rng).unwrap();
    assert_eq!(id.ciphertext, "Hello, World");
    assert!(id.key.is_none());
    let rot = Cipher::encrypt("Hello, World", Type::Rot13, None, &words, &mut rng).unwrap();
    assert_eq!(rot.ciphertext, "Uryyb, Jbeyq");
    let hill = Cipher::encrypt("abcd", Type::Hill, Some("abcd".to_string()), &words, &mut rng).unwrap();
    assert_eq!(hill.ciphertext, "bddn");
    let porta = Cipher::encrypt("Attack at dawn!", Type::Porta, Some("Lemon".to_string()), &words, &mut rng).unwrap();
    assert_eq!(porta.ciphertext, "seauvppaxtel");
    let morbit = Cipher::encrypt("MORE BITS", Type::Morbit, Some("MORSECODE".to_string()), &words, &mut rng).unwrap();
    assert_eq!(morbit.ciphertext, "32379749578158");
}

#[test]
fn encrypt_reports_key_errors() {
    let words = corpus();
    let mut rng = thread_rng();
    let err = Cipher::encrypt("abc", Type::Hill, Some("aaa".to_string()), &words, &mut rng).err().unwrap();
    assert_eq!(err.kind, ErrorKind::KeyError);
    assert_eq!(err.error, "Key length must be a perfect square");
    let ok = Cipher::encrypt("abc", Type::Morbit, Some("abcdefghi".to_string()), &words, &mut rng);
    assert!(ok.is_ok());
}

#[test]
fn encrypt_draws_keys_from_the_corpus() {
    let words = corpus();
    let mut rng = thread_rng();
    for t in [Type::PatristocratK1, Type::PatristocratK2, Type::Porta] {
        let c = Cipher::encrypt("attack at dawn", t, None, &words, &mut rng).unwrap();
        let key = c.key.unwrap();
        assert!(words.contains(&key));
    }
}

#[test]
fn empty_plaintext_never_fails() {
    let words = corpus();
    let mut rng = thread_rng();
    for t in [
        Type::Identity,
        Type::Rot13,
        Type::Caesar,
        Type::Aristocrat,
        Type::Patristocrat,
        Type::PatristocratK1,
        Type::PatristocratK2,
        Type::Hill,
        Type::Morbit,
        Type::Pollux,
        Type::Porta,
    ] {
        let c = Cipher::encrypt("", t, None, &words, &mut rng).unwrap();
        assert_eq!(c.ciphertext, "");
    }
}
