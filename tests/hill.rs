use cryptograms::ciphers::hill::{generate_key, hill, hill_with_key, is_perfect_square, matmul};
use cryptograms::ciphers::ErrorKind;
use rand::thread_rng;

#[test]
fn hill_test_generate_key() {
    let mut rng = thread_rng();
    let res = generate_key(&mut rng);

    assert_eq!(res.len(), 4);
    for (i, a) in res.iter().enumerate() {
        assert!(a.is_ascii_lowercase());
        for b in &res[i + 1..] {
            assert_ne!(a, b);
        }
    }
}

#[test]
fn test_hill() {
    let mut rng = thread_rng();
    let res = hill("abcd", Some("abcd".into()), &mut rng).unwrap();

    assert_eq!(res.ciphertext, "bddn");
}

#[test]
fn test_matmul() {
    let plaintext = b"abcd";
    let key = vec![vec![b'a', b'b'], vec![b'c', b'd']];

    let res = matmul(plaintext, key);

    assert_eq!(res, vec![b'b', b'd', b'd', b'n'])
}

#[test]
fn test_is_perfect_square() {
    assert!(is_perfect_square(4));
    assert!(is_perfect_square(9));
    assert!(!is_perfect_square(15));
}

#[test]
fn zero_is_no_key_length() {
    assert!(!is_perfect_square(0));
    assert!(is_perfect_square(1));
}

#[test]
fn hill_rejects_a_key_of_three_letters() {
    let err = hill_with_key("abcd", "aaa").err().unwrap();
    assert_eq!(err.kind, ErrorKind::KeyError);
    assert_eq!(err.error, "Key length must be a perfect square");
}

#[test]
fn hill_pads_with_z() {
    assert_eq!(hill_with_key("abc", "abcd").unwrap().ciphertext, "bdzb");
}

#[test]
fn hill_three_by_three_drops_symbols_and_pads() {
    let c = hill_with_key("Hello, World!", "gybnqkurp").unwrap();
    assert_eq!(c.ciphertext, "tfjipijsgtnc");
    assert_eq!(c.key, Some("gybnqkurp".to_string()));
}

#[test]
fn hill_draws_a_two_by_two_key() {
    let mut rng = thread_rng();
    let c = hill("attack", None, &mut rng).unwrap();
    let key = c.key.unwrap();
    assert_eq!(key.len(), 4);
    assert_eq!(c.ciphertext, hill_with_key("attack", &key).unwrap().ciphertext);
}
