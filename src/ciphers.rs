//! The ciphers and the shared alphabet utilities.
use vstd::prelude::*;
use rand::rngs::ThreadRng;
use crate::text::{bytes_of, chars_of, is_letter, is_lower, is_upper};

pub mod cryptarithm;
pub mod errors;
pub mod hill;
pub mod morse;
pub mod polyalphabetic;
pub mod rotation;
pub mod substitution;

pub use errors::{CipherError, CipherResult, ErrorKind};

use crate::ciphers::cryptarithm::{drawn_from, relation_text, solves};
use crate::ciphers::hill::{all_letters, hill_text, is_square, side, valid_hill_key};
use crate::ciphers::morse::morbit::morbit_text;
use crate::ciphers::morse::morse_stream;
use crate::ciphers::morse::pollux::{is_digit_order, pollux_digits};
use crate::ciphers::polyalphabetic::porta_text;
use crate::ciphers::substitution::{
    ascii_words, is_derangement, k1_mapping, k1_text, k2_mapping, k2_text, lowercased, rot13_text, shift_map, substituted,
    substitution,
};

verus! {

/// What a cipher returns: the ciphertext and the key that was used, if any.
#[derive(Debug)]
pub struct Cipher {
    pub ciphertext: String,
    pub key: Option<String>,
}

/// The view of an optional key.
pub open spec fn key_view(k: Option<String>) -> Option<Seq<char>> {
    match k {
        Some(s) => Some(s@),
        None => None,
    }
}

/// `r` is a cipher with this ciphertext and this key.
pub open spec fn produces(r: CipherResult<Cipher>, text: Seq<char>, key: Option<Seq<char>>) -> bool {
    r matches Ok(c) && c.ciphertext@ == text && key_view(c.key) == key && c.ciphertext.is_ascii()
}

impl Cipher {
    pub fn new(ciphertext: String, key: Option<String>) -> (r: Self)
        ensures
            r.ciphertext == ciphertext,
            r.key == key,
    {
        Self { ciphertext, key }
    }
}

/// The letter `by` places after `b` in the alphabet, in the case of `b`.
pub open spec fn shifted(b: u8, by: int) -> u8 {
    if is_lower(b) {
        (97 + (b - 97 + by) % 26) as u8
    } else {
        (65 + (b - 65 + by) % 26) as u8
    }
}

/// The lowercase alphabet.
pub open spec fn alphabet_seq() -> Seq<u8> {
    Seq::new(26, |i: int| (97 + i) as u8)
}

/// The byte `ord` with its case bit copied from `to_match`.
pub open spec fn case_matched(ord: u8, to_match: u8) -> u8 {
    (ord & 0xdf) | (to_match & 0x20)
}

/// Adjusts the case of `ord` to match the case of `to_match`.
pub fn match_case(ord: u8, to_match: u8) -> (r: u8)
    ensures
        r == case_matched(ord, to_match),
        is_lower(ord) && is_lower(to_match) ==> r == ord,
        is_lower(ord) && is_upper(to_match) ==> r == ord - 32,
        is_upper(ord) && is_lower(to_match) ==> r == ord + 32,
        is_upper(ord) && is_upper(to_match) ==> r == ord,
{
    let is_lower = (to_match >> 5) & 1;
    let r = ord & !(1u8 << 5) | (is_lower << 5);
    assert(r == (ord & 0xdf) | (to_match & 0x20)) by (bit_vector)
        requires
            is_lower == (to_match >> 5) & 1,
            r == ord & !(1u8 << 5) | (is_lower << 5),
    ;
    assert(97 <= ord <= 122 && 97 <= to_match <= 122 ==> (ord & 0xdf) | (to_match & 0x20) == ord)
        by (bit_vector);
    assert(97 <= ord <= 122 && 65 <= to_match <= 90 ==> (ord & 0xdf) | (to_match & 0x20) == ord
        - 32) by (bit_vector);
    assert(65 <= ord <= 90 && 97 <= to_match <= 122 ==> (ord & 0xdf) | (to_match & 0x20) == ord
        + 32) by (bit_vector);
    assert(65 <= ord <= 90 && 65 <= to_match <= 90 ==> (ord & 0xdf) | (to_match & 0x20) == ord)
        by (bit_vector);
    r
}

/// The kinds of cipher.
#[derive(Debug, Clone, Copy, PartialEq, Eq, Structural)]
pub enum Type {
    /// The plaintext unchanged.
    Identity,
    /// Letters shifted by 13.
    Rot13,
    /// Letters shifted by a random amount.
    Caesar,
    /// Random monoalphabetic substitution.
    Aristocrat,
    /// Random monoalphabetic substitution, whitespace dropped, blocks of five.
    Patristocrat,
    /// Patristocrat with a keyed plaintext alphabet.
    PatristocratK1,
    /// Patristocrat with a keyed ciphertext alphabet.
    PatristocratK2,
    /// Matrix multiplication of letter blocks mod 26.
    Hill,
    /// Morse pairs mapped to digits by a key.
    Morbit,
    /// Morse symbols replaced by random digits of their group.
    Pollux,
    /// Reciprocal tableau keyed by a repeating word.
    Porta,
    /// A word sum with a unique digit solution.
    Cryptarithm,
}

/// How many batches the cryptarithm search draws before it gives up.
pub const CRYPTARITHM_BATCHES: usize = 1000;

/// A supplied key has the form its cipher needs: letters for Hill, nine
/// symbols for Morbit.
pub open spec fn key_fits(t: Type, key: Option<String>) -> bool {
    match key {
        Some(k) => (t == Type::Hill ==> all_letters(bytes_of(k@))) && (t == Type::Morbit ==> k@.len() == 9),
        None => true,
    }
}

/// What `Cipher::encrypt` returns for each kind of cipher: the contract of
/// the cipher of that kind.
pub open spec fn encryption(
    p: Seq<char>,
    t: Type,
    key: Option<String>,
    words: Seq<String>,
    r: CipherResult<Cipher>,
) -> bool {
    match t {
        Type::Identity => produces(r, p, None),
        Type::Rot13 => produces(r, rot13_text(p), None),
        Type::Caesar => exists|k: int|
            1 <= k < 26 && #[trigger] produces(r, chars_of(substituted(bytes_of(p), shift_map(k))), None),
        Type::Aristocrat => exists|m: Seq<u8>|
            is_derangement(m) && #[trigger] produces(r, chars_of(substitution(bytes_of(p), m, true)), None),
        Type::Patristocrat => exists|m: Seq<u8>|
            is_derangement(m) && #[trigger] produces(r, chars_of(substitution(bytes_of(p), m, false)), None),
        Type::PatristocratK1 => exists|k: String|
            (key matches Some(given) ==> k == given) && (key is None ==> words.contains(k))
                && is_derangement(k1_mapping(lowercased(bytes_of(k@))))
                && #[trigger] produces(r, k1_text(p, k@), Some(chars_of(lowercased(bytes_of(k@))))),
        Type::PatristocratK2 => exists|k: String|
            (key matches Some(given) ==> k == given) && (key is None ==> words.contains(k))
                && is_derangement(k2_mapping(lowercased(bytes_of(k@))))
                && #[trigger] produces(r, k2_text(p, k@), Some(chars_of(lowercased(bytes_of(k@))))),
        Type::Hill => match key {
            Some(k) => {
                &&& (!is_square(k@.len() as int) <==> r is Err)
                &&& r is Err ==> r->Err_0.kind == ErrorKind::KeyError && r->Err_0.error@
                    == "Key length must be a perfect square"@
                &&& is_square(k@.len() as int) ==> produces(r, hill_text(p, k@, side(k@.len() as int)), Some(k@))
            },
            None => exists|k: Seq<char>|
                k.len() == 4 && valid_hill_key(bytes_of(k)) && #[trigger] produces(r, hill_text(p, k, 2), Some(k)),
        },
        Type::Morbit => match key {
            Some(k) => produces(r, morbit_text(p, k@), Some(chars_of(lowercased(bytes_of(k@))))),
            None => exists|k: Seq<char>|
                k.len() == 9 && #[trigger] produces(r, morbit_text(p, k), Some(chars_of(lowercased(bytes_of(k))))),
        },
        Type::Pollux => exists|order: Seq<u8>, picks: Seq<u8>|
            is_digit_order(order) && picks.len() == morse_stream(bytes_of(p)).len() && (forall|i: int|
                0 <= i < picks.len() ==> #[trigger] picks[i] < 3) && #[trigger] produces(
                r,
                chars_of(pollux_digits(morse_stream(bytes_of(p)), order, picks)),
                None,
            ),
        Type::Porta => exists|k: String|
            (key matches Some(given) ==> k == given) && (key is None ==> words.contains(k))
                && #[trigger] produces(r, porta_text(p, k@), Some(chars_of(lowercased(bytes_of(k@))))),
        Type::Cryptarithm => {
            &&& r is Err ==> r->Err_0.kind == ErrorKind::ExhaustedSearch
            &&& words.len() <= 10 && (exists|i: int, j: int, w: String|
                0 <= i < j < words.len() && 1 <= words[i]@.len() <= 18 && 1 <= words[j]@.len() <= 18
                    && #[trigger] solves(words[i]@, words[j]@, words, w)) ==> r is Ok
            &&& r matches Ok(c) ==> c.key is None && exists|batch: Seq<String>, i: int, j: int, w: String|
                drawn_from(batch, words) && 0 <= i < j < batch.len() && #[trigger] solves(batch[i]@, batch[j]@, batch, w)
                    && c.ciphertext@ == relation_text(batch[i]@, batch[j]@, w@)
        },
    }
}

/// Returns the input unchanged.
pub fn identity(s: &str) -> (r: Cipher)
    requires
        s.is_ascii(),
    ensures
        r.ciphertext@ == s@,
        r.key is None,
        r.ciphertext.is_ascii(),
{
    Cipher::new(s.to_owned(), None)
}

impl Cipher {
    /// Encrypts `plaintext` with the cipher of kind `cipher_type`. Ciphers
    /// that take a key use `key`, or draw one; Patristocrat K1 and K2 and
    /// Porta draw a word of `words`.
    pub fn encrypt(
        plaintext: &str,
        cipher_type: Type,
        key: Option<String>,
        words: &Vec<String>,
        rng: &mut ThreadRng,
    ) -> (r: CipherResult<Self>)
        requires
            plaintext.is_ascii(),
            key matches Some(k) ==> k.is_ascii(),
            key_fits(cipher_type, key),
            words@.len() > 0,
            ascii_words(words@),
        ensures
            encryption(plaintext@, cipher_type, key, words@, r),
            r matches Ok(c) ==> c.ciphertext.is_ascii(),
    {
        match cipher_type {
            Type::Identity => Ok(identity(plaintext)),
            Type::Rot13 => substitution::rot13(plaintext),
            Type::Caesar => substitution::caeser(plaintext, rng),
            Type::Aristocrat => substitution::aristocrat(plaintext, rng),
            Type::Patristocrat => substitution::patristocrat(plaintext, rng),
            Type::PatristocratK1 => substitution::patristocrat_k1(plaintext, key, words, rng),
            Type::PatristocratK2 => substitution::patristocrat_k2(plaintext, key, words, rng),
            Type::Hill => hill::hill(plaintext, key, rng),
            Type::Morbit => morse::morbit::morbit(plaintext, key, rng),
            Type::Pollux => morse::pollux::pollux(plaintext, rng),
            Type::Porta => Ok(polyalphabetic::porta(plaintext, key, words, rng)),
            Type::Cryptarithm => cryptarithm::cryptarithm(words, rng, CRYPTARITHM_BATCHES),
        }
    }
}

/// Shifts the letter `b` by `by` places within its own case.
pub fn shift_letter(b: u8, by: u8) -> (r: u8)
    requires
        is_letter(b),
        by < 26,
    ensures
        r == shifted(b, by as int),
        is_lower(b) ==> is_lower(r),
        is_upper(b) ==> is_upper(r),
{
    let offset = match_case(97, b);
    (b - offset + by) % 26 + offset
}

/// The lowercase alphabet.
pub fn alphabet() -> (r: Vec<u8>)
    ensures
        r@ == alphabet_seq(),
{
    let mut v: Vec<u8> = Vec::new();
    let mut i: u8 = 0;
    while i < 26
        invariant
            i <= 26,
            v@ == alphabet_seq().take(i as int),
        decreases 26 - i,
    {
        v.push(97 + i);
        i += 1;
        assert(v@ =~= alphabet_seq().take(i as int));
    }
    assert(v@ =~= alphabet_seq());
    v
}

} // verus!
