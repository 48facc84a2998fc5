//! The Morbit cipher: pairs of Morse symbols become digits, ranked by the key.
use vstd::prelude::*;
use rand::rngs::ThreadRng;
use crate::ciphers::{produces, Cipher, CipherResult};
use crate::ciphers::morse::{is_mark, morse_stream, morse_stream_of};
use crate::ciphers::substitution::{lowercased, to_ascii_lower};
use crate::random::gen_range;
use crate::text::{all_ascii, ascii_bytes, ascii_string, bytes_of, chars_of, is_lower};

verus! {

/// The place of a Morse symbol in the bigram order: `.` 0, `-` 1, `/` 2.
pub open spec fn mark_index(c: u8) -> int {
    if c == 46 {
        0
    } else if c == 45 {
        1
    } else {
        2
    }
}

/// How many of the first `n` key bytes rank before `key[i]`: smaller ones,
/// and equal ones that come earlier.
pub open spec fn rank_below(key: Seq<u8>, i: int, n: int) -> int
    decreases n,
{
    if n <= 0 {
        0
    } else {
        rank_below(key, i, n - 1) + if key[n - 1] < key[i] || (key[n - 1] == key[i] && n - 1 < i) {
            1int
        } else {
            0int
        }
    }
}

/// The place of `key[i]` when the key is sorted stably.
pub open spec fn rank_of(key: Seq<u8>, i: int) -> int {
    rank_below(key, i, key.len() as int)
}

/// The stream, with a final `/` when its length is odd.
pub open spec fn paired(m: Seq<u8>) -> Seq<u8> {
    if m.len() % 2 == 1 {
        m.push(47u8)
    } else {
        m
    }
}

/// Each pair of symbols becomes the digit `1 + rank` of its bigram, the
/// bigrams ordered `..`, `.-`, `./`, `-.`, `--`, `-/`, `/.`, `/-`, `//`.
pub open spec fn morbit_digits(m: Seq<u8>, key: Seq<u8>) -> Seq<u8> {
    let p = paired(m);
    Seq::new(
        p.len() / 2,
        |t: int| (49 + rank_of(key, 3 * mark_index(p[2 * t]) + mark_index(p[2 * t + 1]))) as u8,
    )
}

/// The Morbit ciphertext of `s` under `key`.
pub open spec fn morbit_text(s: Seq<char>, key: Seq<char>) -> Seq<char> {
    chars_of(morbit_digits(morse_stream(bytes_of(s)), lowercased(bytes_of(key))))
}

proof fn lemma_rank_bound(key: Seq<u8>, i: int, n: int)
    requires
        0 <= i < key.len(),
        0 <= n <= key.len(),
    ensures
        0 <= rank_below(key, i, n) <= n,
        i < n ==> rank_below(key, i, n) < n,
    decreases n,
{
    if n > 0 {
        lemma_rank_bound(key, i, n - 1);
    }
}

/// Nine random letters.
pub fn generate_key(rng: &mut ThreadRng) -> (r: Vec<u8>)
    ensures
        r@.len() == 9,
        forall|i: int| 0 <= i < 9 ==> is_lower(#[trigger] r@[i]),
{
    let mut k: Vec<u8> = Vec::new();
    while k.len() < 9
        invariant
            k@.len() <= 9,
            forall|i: int| 0 <= i < k@.len() ==> is_lower(#[trigger] k@[i]),
        decreases 9 - k@.len(),
    {
        let c = gen_range(rng, 0, 26) as u8;
        k.push(97 + c);
    }
    k
}

/// The stable rank of each key byte.
pub fn map_key(v: &Vec<u8>) -> (r: Vec<usize>)
    ensures
        r@.len() == v@.len(),
        forall|i: int| 0 <= i < v@.len() ==> #[trigger] r@[i] == rank_of(v@, i),
{
    let n = v.len();
    let mut out: Vec<usize> = Vec::new();
    let mut i: usize = 0;
    while i < n
        invariant
            n == v@.len(),
            i <= n,
            out@.len() == i,
            forall|k: int| 0 <= k < i ==> #[trigger] out@[k] == rank_of(v@, k),
        decreases n - i,
    {
        let mut c: usize = 0;
        let mut j: usize = 0;
        while j < n
            invariant
                n == v@.len(),
                i < n,
                j <= n,
                c == rank_below(v@, i as int, j as int),
            decreases n - j,
        {
            proof {
                lemma_rank_bound(v@, i as int, j as int);
            }
            if v[j] < v[i] || (v[j] == v[i] && j < i) {
                c += 1;
            }
            j += 1;
        }
        out.push(c);
        i += 1;
    }
    out
}

fn mark_idx(c: u8) -> (r: usize)
    ensures
        r == mark_index(c),
        r < 3,
{
    if c == 46 {
        0
    } else if c == 45 {
        1
    } else {
        2
    }
}

/// Morbit with a supplied key of nine symbols, one for each bigram.
pub fn morbit_with_key(s: &str, key: &str) -> (r: CipherResult<Cipher>)
    requires
        s.is_ascii(),
        key.is_ascii(),
        key@.len() == 9,
    ensures
        produces(r, morbit_text(s@, key@), Some(chars_of(lowercased(bytes_of(key@))))),
{
    let key_lower = to_ascii_lower(key);
    proof {
        crate::text::lemma_ascii_round_trip(lowercased(bytes_of(key@)));
    }
    let kb = ascii_bytes(key_lower.as_str());
    let ranks = map_key(&kb);
    let sb = ascii_bytes(s);
    let m = morse_stream_of(&sb);
    let ghost p = paired(m@);
    let pairs = m.len() / 2 + m.len() % 2;
    assert(pairs == p.len() / 2);
    let mut out: Vec<u8> = Vec::new();
    let mut t: usize = 0;
    while t < pairs
        invariant
            t <= pairs,
            pairs == p.len() / 2,
            pairs == m.len() / 2 + m.len() % 2,
            p == paired(m@),
            kb@.len() == 9,
            ranks@.len() == 9,
            forall|i: int| 0 <= i < 9 ==> #[trigger] ranks@[i] == rank_of(kb@, i),
            out@ == morbit_digits(m@, kb@).take(t as int),
            all_ascii(out@),
        decreases pairs - t,
    {
        let a = m[2 * t];
        let b = if 2 * t + 1 < m.len() { m[2 * t + 1] } else { 47 };
        assert(a == p[2 * t]);
        assert(b == p[2 * t + 1]);
        let idx = 3 * mark_idx(a) + mark_idx(b);
        proof {
            lemma_rank_bound(kb@, idx as int, 9);
        }
        out.push(49 + ranks[idx] as u8);
        t += 1;
        assert(out@ =~= morbit_digits(m@, kb@).take(t as int));
    }
    assert(out@ =~= morbit_digits(m@, kb@));
    Ok(Cipher::new(ascii_string(out), Some(key_lower)))
}

/// Morbit: with no key, nine random letters are drawn.
pub fn morbit(s: &str, key: Option<String>, rng: &mut ThreadRng) -> (r: CipherResult<Cipher>)
    requires
        s.is_ascii(),
        key matches Some(k) ==> k.is_ascii() && k@.len() == 9,
    ensures
        key matches Some(k) ==> produces(r, morbit_text(s@, k@), Some(chars_of(lowercased(bytes_of(k@))))),
        key is None ==> exists|k: Seq<char>|
            k.len() == 9 && #[trigger] produces(r, morbit_text(s@, k), Some(chars_of(lowercased(bytes_of(k))))),
{
    match key {
        Some(k) => morbit_with_key(s, k.as_str()),
        None => {
            let kb = generate_key(rng);
            proof {
                assert(all_ascii(kb@));
                crate::text::lemma_ascii_round_trip(kb@);
            }
            let k = ascii_string(kb);
            let r = morbit_with_key(s, k.as_str());
            assert(produces(r, morbit_text(s@, k@), Some(chars_of(lowercased(bytes_of(k@))))));
            r
        },
    }
}

} // verus!
