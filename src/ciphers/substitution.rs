//! Substitution ciphers: rot13, Caesar, Aristocrat, Patristocrat and the
//! keyed Patristocrats K1 and K2.
use vstd::prelude::*;
use rand::rngs::ThreadRng;
use crate::ciphers::{produces, alphabet, alphabet_seq, match_case, shift_letter, shifted, Cipher, CipherResult};
use crate::ciphers::rotation::{has_fixed_point, clear_fixed_points, clear_left_from, clear_right_from, rotated_left, rotated_right, lemma_clear_left, lemma_clear_right};
use crate::random::{choose_one, gen_range, sample_indices, shuffle};
use crate::text::{is_space_byte, all_ascii, ascii_bytes, ascii_string, bytes_of, chars_of, is_letter, is_lower, is_space, is_upper, lower_of};

verus! {

/// A plaintext-to-ciphertext alphabet: entry `i` is the lowercase letter that
/// the `i`-th letter becomes.
pub open spec fn is_alphabet_map(m: Seq<u8>) -> bool {
    &&& m.len() == 26
    &&& forall|i: int| 0 <= i < 26 ==> is_lower(#[trigger] m[i])
}

/// An alphabet map that uses each letter once.
pub open spec fn is_bijection(m: Seq<u8>) -> bool {
    &&& is_alphabet_map(m)
    &&& forall|i: int, j: int| 0 <= i < j < 26 ==> m[i] != m[j]
}

/// No letter maps to itself.
pub open spec fn no_fixed_point(m: Seq<u8>) -> bool {
    forall|i: int| 0 <= i < 26 ==> #[trigger] m[i] != 97 + i
}

pub open spec fn is_derangement(m: Seq<u8>) -> bool {
    is_bijection(m) && no_fixed_point(m)
}

/// The alphabet shifted by `k` places.
pub open spec fn shift_map(k: int) -> Seq<u8> {
    Seq::new(26, |i: int| (97 + (i + k) % 26) as u8)
}

/// One byte through the map: letters are replaced in their own case, other
/// bytes are kept.
pub open spec fn substitute_byte(m: Seq<u8>, b: u8) -> u8 {
    if is_lower(b) {
        m[b - 97]
    } else if is_upper(b) {
        (m[b - 65] - 32) as u8
    } else {
        b
    }
}

pub open spec fn substituted(b: Seq<u8>, m: Seq<u8>) -> Seq<u8> {
    b.map_values(|x: u8| substitute_byte(m, x))
}

/// The bytes that are not whitespace, in order.
pub open spec fn without_spaces(b: Seq<u8>) -> Seq<u8>
    decreases b.len(),
{
    if b.len() == 0 {
        b
    } else {
        let p = without_spaces(b.drop_last());
        if is_space(b.last()) {
            p
        } else {
            p.push(b.last())
        }
    }
}

/// The bytes in order, with a space before every fifth byte after the first:
/// blocks of five joined by single spaces.
pub open spec fn in_blocks(x: Seq<u8>) -> Seq<u8>
    decreases x.len(),
{
    if x.len() == 0 {
        x
    } else {
        let p = in_blocks(x.drop_last());
        let j = x.len() - 1;
        if j > 0 && j % 5 == 0 {
            p.push(32u8).push(x.last())
        } else {
            p.push(x.last())
        }
    }
}

/// What `substitute` produces from the bytes `b`.
pub open spec fn substitution(b: Seq<u8>, m: Seq<u8>, keep_whitespace: bool) -> Seq<u8> {
    if keep_whitespace {
        substituted(b, m)
    } else {
        in_blocks(substituted(without_spaces(b), m))
    }
}

/// The rot13 text of `s`.
pub open spec fn rot13_text(s: Seq<char>) -> Seq<char> {
    chars_of(substituted(bytes_of(s), shift_map(13)))
}

fn is_letter_byte(b: u8) -> (r: bool)
    ensures
        r == is_letter(b),
{
    (97 <= b && b <= 122) || (65 <= b && b <= 90)
}

proof fn lemma_substitute_byte_ascii(m: Seq<u8>, b: u8)
    requires
        is_alphabet_map(m),
        b < 128,
    ensures
        substitute_byte(m, b) < 128,
        is_space(substitute_byte(m, b)) == is_space(b),
{
}

fn in_blocks_of(x: &Vec<u8>) -> (r: Vec<u8>)
    ensures
        r@ == in_blocks(x@),
        all_ascii(x@) ==> all_ascii(r@),
{
    let mut out: Vec<u8> = Vec::new();
    let mut j: usize = 0;
    while j < x.len()
        invariant
            j <= x@.len(),
            out@ == in_blocks(x@.take(j as int)),
            all_ascii(x@) ==> all_ascii(out@),
        decreases x@.len() - j,
    {
        assert(x@.take(j + 1).drop_last() =~= x@.take(j as int));
        if j > 0 && j % 5 == 0 {
            out.push(32);
        }
        out.push(x[j]);
        j += 1;
    }
    assert(x@.take(j as int) =~= x@);
    out
}

/// Applies `mapping` to the letters of `s`, keeping their case. Other bytes
/// are kept; with `keep_whitespace` false, whitespace is dropped and the
/// result is laid out in blocks of five.
pub fn substitute(s: &str, mapping: &Vec<u8>, keep_whitespace: bool) -> (r: String)
    requires
        s.is_ascii(),
        is_alphabet_map(mapping@),
    ensures
        r@ == chars_of(substitution(bytes_of(s@), mapping@, keep_whitespace)),
        all_ascii(substitution(bytes_of(s@), mapping@, keep_whitespace)),
        r.is_ascii(),
{
    let b = ascii_bytes(s);
    let ghost m = mapping@;
    let mut out: Vec<u8> = Vec::new();
    let mut i: usize = 0;
    while i < b.len()
        invariant
            i <= b@.len(),
            is_alphabet_map(m),
            m == mapping@,
            all_ascii(b@),
            keep_whitespace ==> out@ == substituted(b@.take(i as int), m),
            !keep_whitespace ==> out@ == substituted(without_spaces(b@.take(i as int)), m),
            all_ascii(out@),
            !keep_whitespace ==> forall|k: int| 0 <= k < out@.len() ==> !is_space(#[trigger] out@[k]),
        decreases b@.len() - i,
    {
        let c = b[i];
        let ghost before = out@;
        assert(b@.take(i + 1).drop_last() =~= b@.take(i as int));
        assert(b@.take(i + 1).last() == c);
        proof {
            lemma_substitute_byte_ascii(m, c);
        }
        if keep_whitespace || !is_space_byte(c) {
            if is_letter_byte(c) {
                let idx: usize = if c >= 97 { (c - 97) as usize } else { (c - 65) as usize };
                out.push(match_case(mapping[idx], c));
            } else {
                out.push(c);
            }
            assert(out@ == before.push(substitute_byte(m, c)));
        }
        i += 1;
        if keep_whitespace {
            assert(out@ =~= substituted(b@.take(i as int), m));
        } else {
            assert(out@ =~= substituted(without_spaces(b@.take(i as int)), m));
        }
    }
    assert(b@.take(i as int) =~= b@);
    if keep_whitespace {
        ascii_string(out)
    } else {
        let blocks = in_blocks_of(&out);
        ascii_string(blocks)
    }
}

/// The alphabet shifted by `k` places.
pub fn shift_mapping(k: u8) -> (r: Vec<u8>)
    requires
        k < 26,
    ensures
        r@ == shift_map(k as int),
{
    let a = alphabet();
    let mut v: Vec<u8> = Vec::new();
    let mut i: usize = 0;
    while i < 26
        invariant
            i <= 26,
            k < 26,
            a@ == alphabet_seq(),
            v@ == shift_map(k as int).take(i as int),
        decreases 26 - i,
    {
        v.push(shift_letter(a[i], k));
        i += 1;
        assert(v@ =~= shift_map(k as int).take(i as int));
    }
    assert(v@ =~= shift_map(k as int));
    v
}

/// Shifts each letter by 13.
pub fn rot13(s: &str) -> (r: CipherResult<Cipher>)
    requires
        s.is_ascii(),
    ensures
        produces(r, rot13_text(s@), None),
{
    let m = shift_mapping(13);
    let out = substitute(s, &m, true);
    Ok(Cipher::new(out, None))
}

/// Shifts each letter by `shift` places.
pub fn caesar_with_shift(s: &str, shift: u8) -> (r: CipherResult<Cipher>)
    requires
        s.is_ascii(),
        1 <= shift < 26,
    ensures
        produces(r, chars_of(substituted(bytes_of(s@), shift_map(shift as int))), None),
{
    let m = shift_mapping(shift);
    Ok(Cipher::new(substitute(s, &m, true), None))
}

/// Shifts each letter by a random number of places, never by zero.
pub fn caeser(s: &str, rng: &mut ThreadRng) -> (r: CipherResult<Cipher>)
    requires
        s.is_ascii(),
    ensures
        exists|k: int|
            1 <= k < 26 && #[trigger] produces(r, chars_of(substituted(bytes_of(s@), shift_map(k))), None),
{
    let shift = gen_range(rng, 1, 26) as u8;
    let r = caesar_with_shift(s, shift);
    assert(produces(r, chars_of(substituted(bytes_of(s@), shift_map(shift as int))), None));
    r
}

/// The distinct letters of `key`, lowercased, in order of first occurrence.
pub open spec fn key_letters(key: Seq<u8>) -> Seq<u8>
    decreases key.len(),
{
    if key.len() == 0 {
        Seq::empty()
    } else {
        let p = key_letters(key.drop_last());
        let c = lower_of(key.last());
        if !is_letter(key.last()) || p.contains(c) {
            p
        } else {
            p.push(c)
        }
    }
}

/// The first `n` letters of the alphabet that `used` lacks, in ascending order.
pub open spec fn missing_letters(used: Seq<u8>, n: int) -> Seq<u8>
    decreases n,
{
    if n <= 0 {
        Seq::empty()
    } else {
        let p = missing_letters(used, n - 1);
        let c = (97 + n - 1) as u8;
        if used.contains(c) {
            p
        } else {
            p.push(c)
        }
    }
}

/// The key's letters followed by the rest of the alphabet.
pub open spec fn keyed_alphabet(key: Seq<u8>) -> Seq<u8> {
    key_letters(key) + missing_letters(key_letters(key), 26)
}

/// The K1 ciphertext of `s` under `key`.
pub open spec fn k1_text(s: Seq<char>, key: Seq<char>) -> Seq<char> {
    chars_of(substitution(bytes_of(s), k1_mapping(lowercased(bytes_of(key))), false))
}

/// The K2 ciphertext of `s` under `key`.
pub open spec fn k2_text(s: Seq<char>, key: Seq<char>) -> Seq<char> {
    chars_of(substitution(bytes_of(s), k2_mapping(lowercased(bytes_of(key))), false))
}

/// The K1 map: the keyed alphabet rotated right until no letter is fixed.
pub open spec fn k1_mapping(key: Seq<u8>) -> Seq<u8> {
    rotated_right(keyed_alphabet(key), clear_right_from(keyed_alphabet(key), 0))
}

/// The K2 map: the keyed alphabet rotated left until no letter is fixed.
pub open spec fn k2_mapping(key: Seq<u8>) -> Seq<u8> {
    rotated_left(keyed_alphabet(key), clear_left_from(keyed_alphabet(key), 0))
}

proof fn lemma_key_letters(key: Seq<u8>)
    ensures
        forall|i: int| 0 <= i < key_letters(key).len() ==> is_lower(#[trigger] key_letters(key)[i]),
        forall|i: int, j: int|
            0 <= i < j < key_letters(key).len() ==> #[trigger] key_letters(key)[i] != #[trigger] key_letters(key)[j],
    decreases key.len(),
{
    if key.len() > 0 {
        lemma_key_letters(key.drop_last());
        let p = key_letters(key.drop_last());
        let c = lower_of(key.last());
        if is_letter(key.last()) && !p.contains(c) {
            let q = p.push(c);
            assert forall|i: int| 0 <= i < q.len() implies is_lower(#[trigger] q[i]) by {
                if i < p.len() {
                    assert(q[i] == p[i]);
                }
            }
            assert forall|i: int, j: int| 0 <= i < j < q.len() implies #[trigger] q[i] != #[trigger] q[j] by {
                assert(q[i] == p[i]);
                if j < p.len() {
                    assert(q[j] == p[j]);
                } else {
                    assert(p.contains(q[i]));
                }
            }
        }
    }
}

proof fn lemma_missing_letters(used: Seq<u8>, n: int)
    requires
        0 <= n <= 26,
    ensures
        forall|i: int| 0 <= i < missing_letters(used, n).len() ==> {
            let c = #[trigger] missing_letters(used, n)[i];
            97 <= c < 97 + n && !used.contains(c)
        },
        forall|i: int, j: int|
            0 <= i < j < missing_letters(used, n).len() ==> #[trigger] missing_letters(used, n)[i]
                < #[trigger] missing_letters(used, n)[j],
    decreases n,
{
    if n > 0 {
        lemma_missing_letters(used, n - 1);
        let p = missing_letters(used, n - 1);
        let c = (97 + n - 1) as u8;
        if !used.contains(c) {
            let q = p.push(c);
            assert(q == missing_letters(used, n));
            assert forall|i: int| 0 <= i < q.len() implies {
                let x = #[trigger] q[i];
                97 <= x < 97 + n && !used.contains(x)
            } by {
                if i < p.len() {
                    assert(q[i] == p[i]);
                }
            }
            assert forall|i: int, j: int| 0 <= i < j < q.len() implies #[trigger] q[i] < #[trigger] q[j] by {
                assert(q[i] == p[i]);
                if j < p.len() {
                    assert(q[j] == p[j]);
                }
            }
        }
    }
}

/// How many of the first `n` letters `used` holds, counted through its
/// letter positions.
proof fn lemma_missing_len(used: Seq<u8>, n: int)
    requires
        0 <= n <= 26,
        forall|i: int| 0 <= i < used.len() ==> is_lower(#[trigger] used[i]),
        forall|i: int, j: int| 0 <= i < j < used.len() ==> #[trigger] used[i] != #[trigger] used[j],
    ensures
        missing_letters(used, n).len() + crate::ciphers::rotation::total_count(
            |j: int| used[j] - 97,
            n,
            used.len() as int,
        ) == n,
    decreases n,
{
    let f = |j: int| used[j] - 97;
    if n > 0 {
        lemma_missing_len(used, n - 1);
        let c = (97 + n - 1) as u8;
        crate::ciphers::rotation::lemma_count_at_most_one(f, n - 1, used.len() as int);
        crate::ciphers::rotation::lemma_count_nonneg(f, n - 1, used.len() as int);
        if used.contains(c) {
            let j = choose|j: int| 0 <= j < used.len() && used[j] == c;
            assert(f(j) == n - 1);
            crate::ciphers::rotation::lemma_count_positive(f, n - 1, used.len() as int, j);
        } else {
            if crate::ciphers::rotation::count_of(f, n - 1, used.len() as int) >= 1 {
                let j = choose|j: int| 0 <= j < used.len() && #[trigger] f(j) == n - 1;
                assert(used[j] == c);
            }
        }
    } else {
        crate::ciphers::rotation::lemma_zero_bound(f, used.len() as int);
    }
}

/// The keyed alphabet uses each letter exactly once.
pub proof fn lemma_keyed_alphabet_bijection(key: Seq<u8>)
    ensures
        is_bijection(keyed_alphabet(key)),
{
    let p = key_letters(key);
    let q = missing_letters(p, 26);
    lemma_key_letters(key);
    lemma_missing_letters(p, 26);
    lemma_missing_len(p, 26);
    crate::ciphers::rotation::lemma_sums_by_count(|j: int| p[j] - 97, 26, p.len() as int);
    let m = keyed_alphabet(key);
    assert(m.len() == 26);
    assert forall|i: int| 0 <= i < 26 implies is_lower(#[trigger] m[i]) by {
        if i >= p.len() {
            assert(m[i] == q[i - p.len()]);
        }
    }
    assert forall|i: int, j: int| 0 <= i < j < 26 implies m[i] != m[j] by {
        if j < p.len() {
            assert(m[i] == p[i] && m[j] == p[j]);
        } else if i >= p.len() {
            assert(m[i] == q[i - p.len()] && m[j] == q[j - p.len()]);
        } else {
            assert(m[i] == p[i] && m[j] == q[j - p.len()]);
            assert(p.contains(m[i]));
        }
    }
}

/// Builds the keyed alphabet of `key`.
pub fn keyed_alphabet_of(key: &Vec<u8>) -> (r: Vec<u8>)
    ensures
        r@ == keyed_alphabet(key@),
{
    let mut seen: Vec<bool> = Vec::new();
    let mut c: usize = 0;
    while c < 26
        invariant
            c <= 26,
            seen@ == Seq::new(c as nat, |i: int| false),
        decreases 26 - c,
    {
        seen.push(false);
        c += 1;
        assert(seen@ =~= Seq::new(c as nat, |i: int| false));
    }
    let mut out: Vec<u8> = Vec::new();
    let mut i: usize = 0;
    while i < key.len()
        invariant
            i <= key@.len(),
            seen@.len() == 26,
            out@ == key_letters(key@.take(i as int)),
            forall|k: int| 0 <= k < 26 ==> (#[trigger] seen@[k] <==> out@.contains((97 + k) as u8)),
        decreases key@.len() - i,
    {
        let b = key[i];
        assert(key@.take(i + 1).drop_last() =~= key@.take(i as int));
        proof {
            lemma_key_letters(key@.take(i as int));
        }
        if is_letter_byte(b) {
            let l: u8 = if b <= 90 { b + 32 } else { b };
            let idx = (l - 97) as usize;
            if !seen[idx] {
                let ghost before = out@;
                let ghost old_seen = seen@;
                out.push(l);
                seen.set(idx, true);
                assert forall|k: int| 0 <= k < 26 implies (#[trigger] seen@[k] <==> out@.contains(
                    (97 + k) as u8,
                )) by {
                    let x = (97 + k) as u8;
                    if k != idx {
                        assert(seen@[k] == old_seen[k]);
                        if before.contains(x) {
                            let j = choose|j: int| 0 <= j < before.len() && before[j] == x;
                            assert(out@[j] == before[j]);
                        }
                        if out@.contains(x) {
                            let j = choose|j: int| 0 <= j < out@.len() && out@[j] == x;
                            if j < before.len() {
                                assert(before[j] == out@[j]);
                            } else {
                                assert(out@[j] == l);
                            }
                        }
                    } else {
                        assert(out@[before.len() as int] == l);
                    }
                }
                assert(out@ == key_letters(key@.take(i + 1)));
            } else {
                assert(out@.contains(l));
            }
        }
        i += 1;
    }
    assert(key@.take(i as int) =~= key@);
    let ghost p = out@;
    let mut rest: Vec<u8> = Vec::new();
    let mut c: usize = 0;
    while c < 26
        invariant
            c <= 26,
            seen@.len() == 26,
            p == key_letters(key@),
            forall|k: int| 0 <= k < 26 ==> (#[trigger] seen@[k] <==> p.contains((97 + k) as u8)),
            rest@ == missing_letters(p, c as int),
        decreases 26 - c,
    {
        if !seen[c] {
            rest.push(97 + c as u8);
        }
        c += 1;
    }
    let mut k: usize = 0;
    let n = rest.len();
    while k < n
        invariant
            k <= n,
            n == rest@.len(),
            out@ == p + rest@.take(k as int),
        decreases n - k,
    {
        out.push(rest[k]);
        k += 1;
        assert(out@ =~= p + rest@.take(k as int));
    }
    assert(rest@.take(n as int) =~= rest@);
    out
}

/// The ASCII lowercase form of each byte.
pub open spec fn lowercased(b: Seq<u8>) -> Seq<u8> {
    b.map_values(|x: u8| lower_of(x))
}

/// Lowercases the ASCII letters of `s`.
pub fn to_ascii_lower(s: &str) -> (r: String)
    requires
        s.is_ascii(),
    ensures
        r@ == chars_of(lowercased(bytes_of(s@))),
        all_ascii(lowercased(bytes_of(s@))),
{
    let b = ascii_bytes(s);
    let mut out: Vec<u8> = Vec::new();
    let mut i: usize = 0;
    while i < b.len()
        invariant
            i <= b@.len(),
            all_ascii(b@),
            out@ == lowercased(b@).take(i as int),
            all_ascii(out@),
        decreases b@.len() - i,
    {
        let c = b[i];
        out.push(if 65 <= c && c <= 90 { c + 32 } else { c });
        i += 1;
        assert(out@ =~= lowercased(b@).take(i as int));
    }
    assert(out@ =~= lowercased(b@));
    ascii_string(out)
}

/// A reordering of a bijection is a bijection.
pub proof fn lemma_reordered_bijection(m: Seq<u8>, base: Seq<u8>)
    requires
        m.to_multiset() == base.to_multiset(),
        is_bijection(base),
    ensures
        is_bijection(m),
{
    broadcast use vstd::seq_lib::group_to_multiset_ensures;

    m.to_multiset_ensures();
    base.to_multiset_ensures();
    assert(base.no_duplicates());
    base.lemma_multiset_has_no_duplicates();
    m.lemma_multiset_has_no_duplicates_conv();
    assert(m.len() == 26);
    assert forall|i: int| 0 <= i < 26 implies is_lower(#[trigger] m[i]) by {
        assert(m.contains(m[i]));
        assert(m.to_multiset().count(m[i]) > 0);
        assert(base.to_multiset().count(m[i]) > 0);
        assert(base.contains(m[i]));
    }
}

/// The letters at the alphabet positions `idx`.
pub fn letters_at(idx: &Vec<usize>) -> (r: Vec<u8>)
    requires
        forall|k: int| 0 <= k < idx@.len() ==> #[trigger] idx@[k] < 26,
    ensures
        r@.len() == idx@.len(),
        forall|k: int| 0 <= k < idx@.len() ==> #[trigger] r@[k] == 97 + idx@[k],
{
    let mut r: Vec<u8> = Vec::new();
    while r.len() < idx.len()
        invariant
            r@.len() <= idx@.len(),
            forall|k: int| 0 <= k < idx@.len() ==> #[trigger] idx@[k] < 26,
            forall|k: int| 0 <= k < r@.len() ==> #[trigger] r@[k] == 97 + idx@[k],
        decreases idx@.len() - r@.len(),
    {
        let x = idx[r.len()];
        r.push(97 + x as u8);
    }
    r
}

/// A random bijection of the alphabet with no fixed point: a random
/// permutation, reshuffled until it has no fixed point (for a bounded number
/// of draws), then rotated clear.
pub fn random_derangement(rng: &mut ThreadRng) -> (r: Vec<u8>)
    ensures
        is_derangement(r@),
{
    let idx = sample_indices(rng, 26, 26);
    let mut m = letters_at(&idx);
    assert forall|i: int, j: int| 0 <= i < j < 26 implies m@[i] != m@[j] by {
        assert(idx@[i] != idx@[j]);
    }
    let mut tries: usize = 0;
    while tries < 64 && has_fixed_point(&m)
        invariant
            is_bijection(m@),
        decreases 64 - tries,
    {
        let ghost before = m@;
        shuffle(&mut m, rng);
        proof {
            lemma_reordered_bijection(m@, before);
        }
        tries += 1;
    }
    clear_fixed_points(&m, true)
}

/// Monoalphabetic substitution with a given map; spacing and punctuation are
/// kept.
pub fn aristocrat_with_mapping(s: &str, mapping: &Vec<u8>) -> (r: CipherResult<Cipher>)
    requires
        s.is_ascii(),
        is_derangement(mapping@),
    ensures
        produces(r, chars_of(substitution(bytes_of(s@), mapping@, true)), None),
{
    Ok(Cipher::new(substitute(s, mapping, true), None))
}

/// Monoalphabetic substitution with a random map in which no letter maps to
/// itself.
pub fn aristocrat(s: &str, rng: &mut ThreadRng) -> (r: CipherResult<Cipher>)
    requires
        s.is_ascii(),
    ensures
        exists|m: Seq<u8>|
            is_derangement(m) && #[trigger] produces(r, chars_of(substitution(bytes_of(s@), m, true)), None),
{
    let m = random_derangement(rng);
    let r = aristocrat_with_mapping(s, &m);
    assert(produces(r, chars_of(substitution(bytes_of(s@), m@, true)), None));
    r
}

/// Aristocrat without whitespace, in blocks of five, with a given map.
pub fn patristocrat_with_mapping(s: &str, mapping: &Vec<u8>) -> (r: CipherResult<Cipher>)
    requires
        s.is_ascii(),
        is_derangement(mapping@),
    ensures
        produces(r, chars_of(substitution(bytes_of(s@), mapping@, false)), None),
{
    Ok(Cipher::new(substitute(s, mapping, false), None))
}

/// Aristocrat without whitespace, in blocks of five.
pub fn patristocrat(s: &str, rng: &mut ThreadRng) -> (r: CipherResult<Cipher>)
    requires
        s.is_ascii(),
    ensures
        exists|m: Seq<u8>|
            is_derangement(m) && #[trigger] produces(r, chars_of(substitution(bytes_of(s@), m, false)), None),
{
    let m = random_derangement(rng);
    let r = patristocrat_with_mapping(s, &m);
    assert(produces(r, chars_of(substitution(bytes_of(s@), m@, false)), None));
    r
}

/// Patristocrat whose map starts with the key's letters (K1, `right`), or
/// whose map is rotated the other way (K2).
fn keyed_patristocrat(s: &str, key_in: &str, right: bool) -> (r: CipherResult<Cipher>)
    requires
        s.is_ascii(),
        key_in.is_ascii(),
    ensures
        produces(
            r,
            chars_of(
                substitution(
                    bytes_of(s@),
                    if right {
                        k1_mapping(lowercased(bytes_of(key_in@)))
                    } else {
                        k2_mapping(lowercased(bytes_of(key_in@)))
                    },
                    false,
                ),
            ),
            Some(chars_of(lowercased(bytes_of(key_in@)))),
        ),
{
    let key = to_ascii_lower(key_in);
    proof {
        crate::text::lemma_ascii_round_trip(lowercased(bytes_of(key_in@)));
    }
    let kb = ascii_bytes(key.as_str());
    let base = keyed_alphabet_of(&kb);
    proof {
        lemma_keyed_alphabet_bijection(kb@);
    }
    let m = clear_fixed_points(&base, right);
    let ghost lk = lowercased(bytes_of(key_in@));
    assert(kb@ == lk);
    assert(right ==> m@ == k1_mapping(lk));
    assert(!right ==> m@ == k2_mapping(lk));
    let out = substitute(s, &m, false);
    Ok(Cipher::new(out, Some(key)))
}

/// Patristocrat K1 with a given key: the plaintext alphabet is keyed.
pub fn patristocrat_k1_with_key(s: &str, key: &str) -> (r: CipherResult<Cipher>)
    requires
        s.is_ascii(),
        key.is_ascii(),
    ensures
        produces(r, k1_text(s@, key@), Some(chars_of(lowercased(bytes_of(key@))))),
        is_derangement(k1_mapping(lowercased(bytes_of(key@)))),
{
    proof {
        keyed_maps_are_derangements(lowercased(bytes_of(key@)));
    }
    keyed_patristocrat(s, key, true)
}

/// Patristocrat K2 with a given key: the ciphertext alphabet is keyed.
pub fn patristocrat_k2_with_key(s: &str, key: &str) -> (r: CipherResult<Cipher>)
    requires
        s.is_ascii(),
        key.is_ascii(),
    ensures
        produces(r, k2_text(s@, key@), Some(chars_of(lowercased(bytes_of(key@))))),
        is_derangement(k2_mapping(lowercased(bytes_of(key@)))),
{
    proof {
        keyed_maps_are_derangements(lowercased(bytes_of(key@)));
    }
    keyed_patristocrat(s, key, false)
}

/// All words of the corpus are ASCII.
pub open spec fn ascii_words(words: Seq<String>) -> bool {
    forall|i: int| 0 <= i < words.len() ==> (#[trigger] words[i]).is_ascii()
}

/// The supplied key, or a word drawn from the corpus.
pub fn key_or_word(key: Option<String>, words: &Vec<String>, rng: &mut ThreadRng) -> (r: String)
    requires
        words@.len() > 0,
        key matches Some(k) ==> k.is_ascii(),
        ascii_words(words@),
    ensures
        key matches Some(k) ==> r == k,
        key is None ==> words@.contains(r),
        r.is_ascii(),
{
    match key {
        Some(k) => k,
        None => {
            let w = choose_one(words, rng).clone();
            w
        },
    }
}

/// Patristocrat K1: the key is the one supplied, or a word of the corpus.
pub fn patristocrat_k1(s: &str, key: Option<String>, words: &Vec<String>, rng: &mut ThreadRng) -> (r:
    CipherResult<Cipher>)
    requires
        s.is_ascii(),
        words@.len() > 0,
        key matches Some(k) ==> k.is_ascii(),
        ascii_words(words@),
    ensures
        exists|k: String|
            (key matches Some(given) ==> k == given) && (key is None ==> words@.contains(k))
                && is_derangement(k1_mapping(lowercased(bytes_of(k@))))
                && #[trigger] produces(r, k1_text(s@, k@), Some(chars_of(lowercased(bytes_of(k@))))),
{
    let k = key_or_word(key, words, rng);
    let r = patristocrat_k1_with_key(s, k.as_str());
    assert(produces(r, k1_text(s@, k@), Some(chars_of(lowercased(bytes_of(k@))))));
    r
}

/// Patristocrat K2: the key is the one supplied, or a word of the corpus.
pub fn patristocrat_k2(s: &str, key: Option<String>, words: &Vec<String>, rng: &mut ThreadRng) -> (r:
    CipherResult<Cipher>)
    requires
        s.is_ascii(),
        words@.len() > 0,
        key matches Some(k) ==> k.is_ascii(),
        ascii_words(words@),
    ensures
        exists|k: String|
            (key matches Some(given) ==> k == given) && (key is None ==> words@.contains(k))
                && is_derangement(k2_mapping(lowercased(bytes_of(k@))))
                && #[trigger] produces(r, k2_text(s@, k@), Some(chars_of(lowercased(bytes_of(k@))))),
{
    let k = key_or_word(key, words, rng);
    let r = patristocrat_k2_with_key(s, k.as_str());
    assert(produces(r, k2_text(s@, k@), Some(chars_of(lowercased(bytes_of(k@))))));
    r
}

/// rot13 undoes itself: applied twice to an ASCII text it gives the text
/// back.
pub proof fn rot13_involution(s: Seq<char>)
    requires
        vstd::utf8::is_ascii_chars(s),
    ensures
        rot13_text(rot13_text(s)) == s,
{
    let b = bytes_of(s);
    let m = shift_map(13);
    let once = substituted(b, m);
    assert forall|i: int| 0 <= i < b.len() implies #[trigger] b[i] < 128 by {
        assert(s[i] <= '\u{7f}');
    }
    assert forall|i: int| 0 <= i < once.len() implies #[trigger] once[i] < 128 by {
        assert(b[i] < 128);
    }
    crate::text::lemma_ascii_round_trip(once);
    let twice = substituted(once, m);
    assert forall|i: int| 0 <= i < b.len() implies #[trigger] twice[i] == b[i] by {
        assert(once[i] == substitute_byte(m, b[i]));
    }
    assert(twice =~= b);
    assert(chars_of(b) =~= s) by {
        assert forall|i: int| 0 <= i < s.len() implies #[trigger] chars_of(b)[i] == s[i] by {
            assert(s[i] <= '\u{7f}');
        }
    }
}

/// Every map that K1 and K2 build is a bijection of the alphabet with no
/// fixed point, whatever the key; so is every map Aristocrat and Patristocrat
/// draw (see their contracts).
pub proof fn keyed_maps_are_derangements(key: Seq<u8>)
    ensures
        is_derangement(k1_mapping(key)),
        is_derangement(k2_mapping(key)),
{
    lemma_keyed_alphabet_bijection(key);
    lemma_clear_right(keyed_alphabet(key));
    lemma_clear_left(keyed_alphabet(key));
}

/// A Caesar shift between 1 and 25 moves every letter: no shift acts as the
/// identity.
pub proof fn caesar_shift_moves_every_letter(k: int)
    requires
        1 <= k < 26,
    ensures
        no_fixed_point(shift_map(k)),
        is_bijection(shift_map(k)),
{
    assert forall|i: int, j: int| 0 <= i < j < 26 implies shift_map(k)[i] != shift_map(k)[j] by {
        assert((i + k) % 26 != (j + k) % 26);
    }
}

/// Blocked text: spaces stand exactly at every sixth position, the other
/// positions hold the (space-free) input, and the text never ends in a space,
/// so it reads as blocks of five joined by single spaces with a final block
/// of one to five bytes.
pub proof fn block_layout(x: Seq<u8>)
    requires
        forall|i: int| 0 <= i < x.len() ==> !is_space(#[trigger] x[i]),
    ensures
        in_blocks(x).len() == if x.len() == 0 {
            0
        } else {
            x.len() + (x.len() - 1) / 5
        },
        forall|i: int| 0 <= i < in_blocks(x).len() ==> (#[trigger] in_blocks(x)[i] == 32 <==> i % 6 == 5),
        forall|i: int|
            0 <= i < in_blocks(x).len() && i % 6 != 5 ==> !is_space(#[trigger] in_blocks(x)[i]),
        in_blocks(x).len() > 0 ==> (in_blocks(x).len() - 1) % 6 != 5,
    decreases x.len(),
{
    if x.len() > 0 {
        let y = x.drop_last();
        block_layout(y);
        let p = in_blocks(y);
        let j = x.len() - 1;
        let r = in_blocks(x);
        if j > 0 && j % 5 == 0 {
            assert(p.len() == 6 * (j / 5) - 1);
            assert forall|i: int| 0 <= i < r.len() implies (#[trigger] r[i] == 32 <==> i % 6 == 5) by {
                if i < p.len() {
                    assert(r[i] == p[i]);
                }
            }
            assert forall|i: int| 0 <= i < r.len() && i % 6 != 5 implies !is_space(#[trigger] r[i]) by {
                if i < p.len() {
                    assert(r[i] == p[i]);
                }
            }
        } else {
            assert(j == 0 || p.len() == 6 * (j / 5) + j % 5);
            assert forall|i: int| 0 <= i < r.len() implies (#[trigger] r[i] == 32 <==> i % 6 == 5) by {
                if i < p.len() {
                    assert(r[i] == p[i]);
                }
            }
            assert forall|i: int| 0 <= i < r.len() && i % 6 != 5 implies !is_space(#[trigger] r[i]) by {
                if i < p.len() {
                    assert(r[i] == p[i]);
                }
            }
        }
    }
}

proof fn lemma_without_spaces(b: Seq<u8>)
    ensures
        forall|i: int| 0 <= i < without_spaces(b).len() ==> !is_space(#[trigger] without_spaces(b)[i]),
    decreases b.len(),
{
    if b.len() > 0 {
        lemma_without_spaces(b.drop_last());
        let p = without_spaces(b.drop_last());
        if !is_space(b.last()) {
            assert forall|i: int| 0 <= i < p.push(b.last()).len() implies !is_space(
                #[trigger] p.push(b.last())[i],
            ) by {
                if i < p.len() {
                    assert(p.push(b.last())[i] == p[i]);
                }
            }
        }
    }
}

/// Patristocrat output (with any alphabet map) has no whitespace but the
/// single spaces between blocks of five, and a final block of one to five
/// characters.
pub proof fn patristocrat_layout(s: Seq<char>, m: Seq<u8>)
    requires
        is_alphabet_map(m),
    ensures
        ({
            let r = substitution(bytes_of(s), m, false);
            &&& forall|i: int| 0 <= i < r.len() ==> (#[trigger] r[i] == 32 <==> i % 6 == 5)
            &&& forall|i: int| 0 <= i < r.len() && i % 6 != 5 ==> !is_space(#[trigger] r[i])
            &&& r.len() > 0 ==> (r.len() - 1) % 6 != 5
        }),
{
    let w = without_spaces(bytes_of(s));
    lemma_without_spaces(bytes_of(s));
    let x = substituted(w, m);
    assert forall|i: int| 0 <= i < x.len() implies !is_space(#[trigger] x[i]) by {
        assert(!is_space(w[i]));
    }
    block_layout(x);
}

} // verus!
