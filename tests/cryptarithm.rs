use cryptograms::ciphers::cryptarithm::{
    create_cryptarithm, cryptarithm, decimal_of, search_batch, word_to_int, Pattern,
};
use cryptograms::ciphers::ErrorKind;
use rand::thread_rng;

#[test]
fn test_word_to_int() {
    let letters = vec![b'b', b'c'];
    let digits = vec![3u8, 5];

    assert_eq!(word_to_int("b", &letters, &digits), 3);
    assert_eq!(word_to_int("bc", &letters, &digits), 35);
}

#[test]
fn test_pattern() {
    let pattern = Pattern::new(112233, &vec![b'a', b'b'], &vec![1u8, 2]);
    assert_eq!(pattern.length, 6);
    assert_eq!(pattern.sum, vec![1u8, 1, 2, 2, 3, 3]);
}

#[test]
fn test_matches_pattern() {
    let pattern = Pattern::new(112233, &vec![b'a', b'b', b'c'], &vec![1u8, 2, 3]);

    let word = "aabbcc";

    assert!(pattern.matches_pattern(word));
}

#[test]
fn pattern_groups_free_digits() {
    let pattern = Pattern::new(10652, &vec![b'm', b'o', b'n', b'e'], &vec![1u8, 0, 6, 5]);
    assert!(pattern.matches_pattern("money"));
    assert!(!pattern.matches_pattern("monem"));
    assert!(!pattern.matches_pattern("mone"));
    assert!(!pattern.matches_pattern("honey"));
    let twice = Pattern::new(1077, &vec![b'a', b'b'], &vec![1u8, 0]);
    assert!(twice.matches_pattern("abcc"));
    assert!(!twice.matches_pattern("abcd"));
    let distinct = Pattern::new(1078, &vec![b'a', b'b'], &vec![1u8, 0]);
    assert!(distinct.matches_pattern("abcd"));
    assert!(!distinct.matches_pattern("abcc"));
}

#[test]
fn decimal_digits() {
    assert_eq!(decimal_of(0), vec![0u8]);
    assert_eq!(decimal_of(100), vec![1u8, 0, 0]);
    assert_eq!(decimal_of(10652), vec![1u8, 0, 6, 5, 2]);
}

fn corpus() -> Vec<String> {
    vec!["send".to_string(), "more".to_string(), "money".to_string()]
}

#[test]
fn send_more_money_has_one_solution() {
    assert_eq!(create_cryptarithm("send", "more", &corpus()), Some("money".to_string()));
}

#[test]
fn no_candidate_of_fitting_length() {
    assert_eq!(create_cryptarithm("send", "money", &corpus()), None);
}

#[test]
fn too_many_letters() {
    let words = vec!["abcdef".to_string(), "ghijkl".to_string(), "mnopqrs".to_string()];
    assert_eq!(create_cryptarithm("abcdef", "ghijkl", &words), None);
}

#[test]
fn solver_reports_send_more_money() {
    let mut rng = thread_rng();
    let c = cryptarithm(&corpus(), &mut rng, 5).unwrap();
    assert!(c.key.is_none());
    assert!(c.ciphertext == "send + more = money" || c.ciphertext == "more + send = money");
}

#[test]
fn small_corpus_is_one_batch_in_order() {
    let mut rng = thread_rng();
    let c = cryptarithm(&corpus(), &mut rng, 1).unwrap();
    assert_eq!(c.ciphertext, "send + more = money");
}

#[test]
fn no_batches_no_result() {
    let mut rng = thread_rng();
    let err = cryptarithm(&corpus(), &mut rng, 0).err().unwrap();
    assert_eq!(err.kind, ErrorKind::ExhaustedSearch);
}

#[test]
fn search_batch_takes_the_first_pair() {
    let batch = vec!["money".to_string(), "send".to_string(), "more".to_string()];
    assert_eq!(search_batch(&batch), Some("send + more = money".to_string()));
    let none = vec!["abcd".to_string(), "efgh".to_string()];
    assert_eq!(search_batch(&none), None);
}
