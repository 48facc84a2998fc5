use cryptograms::ciphers::polyalphabetic::{porta, porta_with_key};
use rand::thread_rng;

#[test]
fn test_porta() {
    let inp = "defendtheeastwallofthecastle";
    let key = "fortification";
    let words = vec!["unused".to_string()];
    let out = porta(inp, Some(key.into()), &words, &mut thread_rng());

    assert_eq!(out.ciphertext, "synnjscvrnrlahutukucvryrlany");
}

#[test]
fn porta_drops_non_letters() {
    let out = porta_with_key("Attack at dawn!", "Lemon");
    assert_eq!(out.ciphertext, "seauvppaxtel");
    assert_eq!(out.key, Some("lemon".to_string()));
}

#[test]
fn porta_is_reciprocal() {
    let once = porta_with_key("defendtheeastwallofthecastle", "fortification").ciphertext;
    let twice = porta_with_key(&once, "fortification").ciphertext;
    assert_eq!(twice, "defendtheeastwallofthecastle");
}

#[test]
fn porta_without_key_letters_gives_nothing() {
    assert_eq!(porta_with_key("abc", "123").ciphertext, "");
}
