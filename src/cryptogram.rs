//! A cryptogram: an encrypted quotation with what is needed to check it.
use vstd::prelude::*;
use std::collections::hash_map::DefaultHasher;
use std::hash::Hasher;
use rand::rngs::ThreadRng;
use vstd::std_specs::hash::DefaultHasherAdditionalSpecFns;
use vstd::string::StringSliceAdditionalSpecFns;
use crate::ciphers::{encryption, key_fits, Cipher, CipherError, CipherResult, ErrorKind};
use crate::ciphers::substitution::ascii_words;
use crate::quotes::{fetch_quote, in_class, Quote};
pub use crate::ciphers::Type;
pub use crate::quotes::Length;
use crate::text::{bytes_of, chars_of, is_letter, letter_index, to_ascii_upper, uppercased};

verus! {

/// The plaintext and key of a cryptogram, as handed back on request.
pub struct Answer {
    pub plaintext: String,
    pub key: Option<String>,
}

impl Answer {
    pub fn new(plaintext: String, key: Option<String>) -> (r: Self)
        ensures
            r.plaintext == plaintext,
            r.key == key,
    {
        Self { plaintext, key }
    }
}

/// An encrypted quotation.
pub struct Cryptogram {
    /// The ciphertext, uppercased.
    pub ciphertext: String,
    pub cipher_type: Type,
    pub length: Length,
    pub author: Option<String>,
    /// A hash of the ciphertext, to ask for the answer with.
    pub token: i32,
    pub key: Option<String>,
    pub plaintext: String,
    /// How often each letter occurs in the ciphertext, for the substitution
    /// ciphers.
    pub frequencies: Option<Vec<i32>>,
}

/// How many of the bytes of `b` are the letter with position `k`, in either
/// case.
pub open spec fn letter_count(b: Seq<u8>, k: int) -> int
    decreases b.len(),
{
    if b.len() == 0 {
        0
    } else {
        letter_count(b.drop_last(), k) + if is_letter(b.last()) && letter_index(b.last()) == k {
            1int
        } else {
            0int
        }
    }
}

/// The count, capped at the largest `i32`.
pub open spec fn capped(n: int) -> int {
    if n < 0x7fff_ffff {
        n
    } else {
        0x7fff_ffff
    }
}

/// The ciphers whose cryptograms carry letter frequencies.
pub open spec fn shows_frequencies(t: Type) -> bool {
    t == Type::Identity || t == Type::Caesar || t == Type::Aristocrat || t == Type::Patristocrat || t
        == Type::PatristocratK1 || t == Type::PatristocratK2
}

/// The letter frequencies of `text` for the ciphers that show them, none for
/// the others.
pub open spec fn frequency_table(f: Option<Vec<i32>>, t: Type, text: String) -> bool {
    if shows_frequencies(t) {
        f matches Some(v) && v@.len() == 26 && forall|k: int|
            0 <= k < 26 ==> #[trigger] v@[k] == capped(letter_count(vstd::utf8::encode_utf8(text@), k))
    } else {
        f is None
    }
}

/// The token of a ciphertext: the `DefaultHasher` digest of its bytes as
/// `str` hashes them, cut to 32 bits.
pub open spec fn token_of(s: Seq<char>) -> i32 {
    DefaultHasher::spec_finish(seq![vstd::utf8::encode_utf8(s), seq![0xffu8]]) as i32
}

/// The cipher asked for, the plaintext unchanged by default.
pub open spec fn chosen_type(t: Option<Type>) -> Type {
    match t {
        Some(t) => t,
        None => Type::Identity,
    }
}

/// The length class asked for, medium by default.
pub open spec fn chosen_length(l: Option<Length>) -> Length {
    match l {
        Some(l) => l,
        None => Length::Medium,
    }
}

/// How often each letter occurs in `s`, case-insensitively.
pub fn frequencies(s: &str) -> (r: Vec<i32>)
    ensures
        r@.len() == 26,
        forall|k: int| 0 <= k < 26 ==> #[trigger] r@[k] == capped(letter_count(vstd::utf8::encode_utf8(s@), k)),
{
    let b = s.as_bytes();
    let mut freqs: Vec<i32> = Vec::new();
    while freqs.len() < 26
        invariant
            freqs@.len() <= 26,
            forall|k: int| 0 <= k < freqs@.len() ==> #[trigger] freqs@[k] == 0,
        decreases 26 - freqs@.len(),
    {
        freqs.push(0);
    }
    let mut i: usize = 0;
    while i < b.len()
        invariant
            i <= b@.len(),
            b@ == s.spec_bytes(),
            freqs@.len() == 26,
            forall|k: int| 0 <= k < 26 ==> #[trigger] freqs@[k] == capped(letter_count(b@.take(i as int), k)),
        decreases b@.len() - i,
    {
        let c = b[i];
        assert(b@.take(i + 1).drop_last() =~= b@.take(i as int));
        if (97 <= c && c <= 122) || (65 <= c && c <= 90) {
            let idx: usize = if c >= 97 { (c - 97) as usize } else { (c - 65) as usize };
            if freqs[idx] < 0x7fff_ffff {
                let v = freqs[idx] + 1;
                freqs.set(idx, v);
            }
        }
        i += 1;
    }
    assert(b@.take(i as int) =~= b@);
    freqs
}

/// The token of a ciphertext.
pub fn compute_hash(s: &str) -> (r: i32)
    ensures
        r == token_of(s@),
{
    let mut hasher = DefaultHasher::new();
    let bytes = s.as_bytes();
    assert(bytes@ == vstd::utf8::encode_utf8(s@));
    hasher.write(bytes);
    let tail: Vec<u8> = vec![0xffu8];
    assert(tail@ =~= seq![0xffu8]);
    hasher.write(tail.as_slice());
    assert(hasher@ =~= seq![vstd::utf8::encode_utf8(s@), seq![0xffu8]]);
    let h = hasher.finish();
    #[verifier::truncate]
    (h as i32)
}

impl Cryptogram {
    /// Encrypts `plaintext`, or a random quotation of the length class when
    /// there is none, with the cipher of kind `cipher_type` (the plaintext
    /// unchanged by default). Fails with the cipher's error, or when no
    /// quotation fits the class.
    pub fn new(
        plaintext: Option<String>,
        length: Option<Length>,
        cipher_type: Option<Type>,
        key: Option<String>,
        quotes: &Vec<Quote>,
        words: &Vec<String>,
        rng: &mut ThreadRng,
    ) -> (r: CipherResult<Self>)
        requires
            plaintext matches Some(p) ==> p.is_ascii(),
            key matches Some(k) ==> k.is_ascii(),
            key_fits(chosen_type(cipher_type), key),
            forall|i: int| 0 <= i < quotes@.len() ==> (#[trigger] quotes@[i]).text.is_ascii(),
            words@.len() > 0,
            ascii_words(words@),
        ensures
            (r is Err && r->Err_0.kind == ErrorKind::NoQuote) <==> (plaintext is None && !exists|i: int|
                0 <= i < quotes@.len() && #[trigger] in_class(
                    quotes@[i],
                    chosen_length(length),
                )),
            r matches Err(e) ==> e.kind == ErrorKind::NoQuote || exists|text: Seq<char>|
                #[trigger] encryption(
                    text,
                    chosen_type(cipher_type),
                    key,
                    words@,
                    Err(e),
                ),
            r matches Ok(c) ==> {
                &&& c.cipher_type == chosen_type(cipher_type)
                &&& c.length == chosen_length(length)
                &&& (plaintext matches Some(p) ==> c.plaintext == p && c.author is None)
                &&& (plaintext is None ==> exists|i: int|
                    0 <= i < quotes@.len() && #[trigger] in_class(quotes@[i], c.length) && c.plaintext
                        == quotes@[i].text && c.author == quotes@[i].author)
                &&& exists|e: Cipher|
                    #[trigger] encryption(c.plaintext@, c.cipher_type, key, words@, Ok(e))
                        && c.ciphertext@ == chars_of(uppercased(bytes_of(e.ciphertext@))) && c.key
                        == e.key && c.token == token_of(e.ciphertext@) && frequency_table(
                        c.frequencies,
                        c.cipher_type,
                        e.ciphertext,
                    )
            },
    {
        let t = match cipher_type {
            Some(t) => t,
            None => Type::Identity,
        };
        let length = match length {
            Some(l) => l,
            None => Length::Medium,
        };
        let quote = match plaintext {
            Some(p) => Quote::new(p, None),
            None => match fetch_quote(quotes, length, rng) {
                Some(q) => q,
                None => {
                    return Err(CipherError::new(ErrorKind::NoQuote, "No quotation of this length".to_owned()));
                },
            },
        };
        let cipher = match Cipher::encrypt(quote.text.as_str(), t, key, words, rng) {
            Ok(c) => c,
            Err(e) => {
                assert(encryption(quote.text@, t, key, words@, Err(e)));
                return Err(e);
            },
        };
        let freqs = if t == Type::Identity || t == Type::Caesar || t == Type::Aristocrat || t
            == Type::Patristocrat || t == Type::PatristocratK1 || t == Type::PatristocratK2 {
            Some(frequencies(cipher.ciphertext.as_str()))
        } else {
            None
        };
        let token = compute_hash(cipher.ciphertext.as_str());
        let upper = to_ascii_upper(cipher.ciphertext.as_str());
        let ghost e = cipher;
        let c = Cryptogram {
            ciphertext: upper,
            cipher_type: t,
            length,
            author: quote.author,
            token,
            key: cipher.key,
            plaintext: quote.text,
            frequencies: freqs,
        };
        assert(encryption(c.plaintext@, c.cipher_type, key, words@, Ok(e)));
        Ok(c)
    }
}

} // verus!
