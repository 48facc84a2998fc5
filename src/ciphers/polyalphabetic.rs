//! The Porta cipher: a reciprocal tableau of 13 rows, the row chosen by the
//! next letter of a repeating key. Non-letters are dropped.
use vstd::prelude::*;
use rand::rngs::ThreadRng;
use crate::ciphers::{produces, Cipher};
use crate::ciphers::hill::{lower_letters, lower_letters_of};
use crate::ciphers::substitution::{ascii_words, key_or_word, lowercased, to_ascii_lower};
use crate::text::{all_ascii, ascii_bytes, ascii_string, bytes_of, chars_of, is_lower};

verus! {

/// Row `r` of the tableau at column `c` (both zero-based): the first half of
/// the alphabet goes to the second half shifted by `r`, and back.
pub open spec fn tableau(r: int, c: int) -> int {
    if c < 13 {
        13 + (c + r) % 13
    } else {
        (c - r) % 13
    }
}

/// The Porta letters of the plaintext letters `p` under the key letters `k`.
pub open spec fn porta_bytes(p: Seq<u8>, k: Seq<u8>) -> Seq<u8> {
    if k.len() == 0 {
        Seq::empty()
    } else {
        Seq::new(p.len(), |i: int| (97 + tableau((k[i % k.len() as int] - 97) / 2, p[i] - 97)) as u8)
    }
}

/// The Porta ciphertext of `s` under `key`.
pub open spec fn porta_text(s: Seq<char>, key: Seq<char>) -> Seq<char> {
    chars_of(porta_bytes(lower_letters(bytes_of(s)), lower_letters(bytes_of(key))))
}

proof fn lemma_lower_letters(b: Seq<u8>)
    ensures
        forall|i: int| 0 <= i < lower_letters(b).len() ==> is_lower(#[trigger] lower_letters(b)[i]),
    decreases b.len(),
{
    if b.len() > 0 {
        lemma_lower_letters(b.drop_last());
        let p = lower_letters(b.drop_last());
        if crate::text::is_letter(b.last()) {
            assert forall|i: int| 0 <= i < lower_letters(b).len() implies is_lower(#[trigger] lower_letters(b)[i]) by {
                if i < p.len() {
                    assert(lower_letters(b)[i] == p[i]);
                }
            }
        }
    }
}

/// Porta keeps only the letters of the plaintext, one lowercase letter for
/// each, whenever the key holds a letter.
pub proof fn porta_output_is_letters(s: Seq<char>, key: Seq<char>)
    requires
        lower_letters(bytes_of(key)).len() > 0,
    ensures
        porta_bytes(lower_letters(bytes_of(s)), lower_letters(bytes_of(key))).len() == lower_letters(bytes_of(s)).len(),
        forall|i: int|
            0 <= i < lower_letters(bytes_of(s)).len() ==> is_lower(
                #[trigger] porta_bytes(lower_letters(bytes_of(s)), lower_letters(bytes_of(key)))[i],
            ),
{
    let p = lower_letters(bytes_of(s));
    let k = lower_letters(bytes_of(key));
    lemma_lower_letters(bytes_of(s));
    lemma_lower_letters(bytes_of(key));
    assert forall|i: int| 0 <= i < p.len() implies is_lower(#[trigger] porta_bytes(p, k)[i]) by {
        let kk = k[i % k.len() as int];
        assert(is_lower(kk));
        assert(is_lower(p[i]));
    }
}

fn tableau_at(r: u8, c: u8) -> (x: u8)
    requires
        r < 13,
        c < 26,
    ensures
        x == tableau(r as int, c as int),
        x < 26,
{
    if c < 13 {
        13 + (c + r) % 13
    } else {
        (c - r) % 13
    }
}

/// Porta with a supplied key; the key's letters repeat over the plaintext's
/// letters.
pub fn porta_with_key(s: &str, key: &str) -> (r: Cipher)
    requires
        s.is_ascii(),
        key.is_ascii(),
    ensures
        produces(Ok(r), porta_text(s@, key@), Some(chars_of(lowercased(bytes_of(key@))))),
{
    let key_lower = to_ascii_lower(key);
    let kl = lower_letters_of(&ascii_bytes(key));
    let pl = lower_letters_of(&ascii_bytes(s));
    let n = kl.len();
    let mut out: Vec<u8> = Vec::new();
    if n > 0 {
        let mut i: usize = 0;
        while i < pl.len()
            invariant
                n == kl@.len(),
                n > 0,
                i <= pl@.len(),
                forall|k: int| 0 <= k < pl@.len() ==> is_lower(#[trigger] pl@[k]),
                forall|k: int| 0 <= k < kl@.len() ==> is_lower(#[trigger] kl@[k]),
                out@ == porta_bytes(pl@, kl@).take(i as int),
                all_ascii(out@),
            decreases pl@.len() - i,
        {
            let k = kl[i % n];
            let p = pl[i];
            let row = (k - 97) / 2;
            out.push(97 + tableau_at(row, p - 97));
            i += 1;
            assert(out@ =~= porta_bytes(pl@, kl@).take(i as int));
        }
        assert(out@ =~= porta_bytes(pl@, kl@));
    } else {
        assert(out@ =~= porta_bytes(pl@, kl@));
    }
    Cipher::new(ascii_string(out), Some(key_lower))
}

/// Porta: the key is the one supplied, or a word of the corpus.
pub fn porta(s: &str, key: Option<String>, words: &Vec<String>, rng: &mut ThreadRng) -> (r: Cipher)
    requires
        s.is_ascii(),
        words@.len() > 0,
        key matches Some(k) ==> k.is_ascii(),
        ascii_words(words@),
    ensures
        exists|k: String|
            (key matches Some(given) ==> k == given) && (key is None ==> words@.contains(k))
                && #[trigger] produces(Ok(r), porta_text(s@, k@), Some(chars_of(lowercased(bytes_of(k@))))),
{
    let k = key_or_word(key, words, rng);
    let r = porta_with_key(s, k.as_str());
    assert(produces(Ok(r), porta_text(s@, k@), Some(chars_of(lowercased(bytes_of(k@))))));
    r
}

} // verus!
