//! The Hill cipher: each block of `L` letters is multiplied by an `L`×`L` key
//! matrix mod 26. Non-letters are dropped and the text is padded with `z` to
//! a whole number of blocks.
use vstd::prelude::*;
use rand::rngs::ThreadRng;
use crate::ciphers::{produces, Cipher, CipherError, CipherResult, ErrorKind};
use crate::random::sample_indices;
use crate::text::{all_ascii, ascii_bytes, ascii_string, bytes_of, chars_of, is_letter, is_lower, lower_of};

verus! {

/// `n` is the square of a positive integer.
pub open spec fn is_square(n: int) -> bool {
    exists|i: int| 1 <= i && #[trigger] (i * i) == n
}

/// The sum over `k < n` of `(blk[k] - 'a') * (row[k] - 'a')`.
pub open spec fn row_dot(blk: Seq<u8>, row: Seq<u8>, n: int) -> int
    decreases n,
{
    if n <= 0 {
        0
    } else {
        row_dot(blk, row, n - 1) + (blk[n - 1] - 97) * (row[n - 1] - 97)
    }
}

/// One block times the key matrix, mod 26, as letters.
pub open spec fn hill_block(blk: Seq<u8>, rows: Seq<Seq<u8>>) -> Seq<u8> {
    Seq::new(rows.len(), |j: int| (97 + row_dot(blk, rows[j], rows.len() as int) % 26) as u8)
}

/// Every block of `p` times the key matrix.
pub open spec fn hill_encode(p: Seq<u8>, rows: Seq<Seq<u8>>) -> Seq<u8>
    decreases p.len(),
{
    let l = rows.len() as int;
    if l == 0 || p.len() < l {
        Seq::empty()
    } else {
        hill_encode(p.take(p.len() - l), rows) + hill_block(p.skip(p.len() - l), rows)
    }
}

/// The letters of `p`, lowercased, in order.
pub open spec fn lower_letters(p: Seq<u8>) -> Seq<u8>
    decreases p.len(),
{
    if p.len() == 0 {
        Seq::empty()
    } else {
        let q = lower_letters(p.drop_last());
        if is_letter(p.last()) {
            q.push(lower_of(p.last()))
        } else {
            q
        }
    }
}

/// `p` followed by as many `z` as make its length a multiple of `l`.
pub open spec fn padded(p: Seq<u8>, l: int) -> Seq<u8> {
    let n = p.len() as int;
    p + Seq::new((if n % l == 0 { 0 } else { l - n % l }) as nat, |i: int| 122u8)
}

/// The rows of the square key `k` with side `l`.
pub open spec fn key_rows(k: Seq<u8>, l: int) -> Seq<Seq<u8>> {
    Seq::new(l as nat, |j: int| k.subrange(j * l, j * l + l))
}

/// Every byte is an ASCII letter.
pub open spec fn all_letters(k: Seq<u8>) -> bool {
    forall|i: int| 0 <= i < k.len() ==> is_letter(#[trigger] k[i])
}

/// A key the Hill cipher takes: a square number of letters.
pub open spec fn valid_hill_key(k: Seq<u8>) -> bool {
    is_square(k.len() as int) && all_letters(k)
}

/// The Hill ciphertext of `p` under the key `k` of side `l`.
pub open spec fn hill_text(p: Seq<char>, k: Seq<char>, l: int) -> Seq<char> {
    chars_of(hill_encode(padded(lower_letters(bytes_of(p)), l), key_rows(lower_letters(bytes_of(k)), l)))
}

/// The positive square root of `n`, if `n` has one.
pub fn square_root(n: usize) -> (r: Option<usize>)
    ensures
        r matches Some(i) ==> 1 <= i && i * i == n,
        r is None ==> !is_square(n as int),
{
    let n128 = n as u128;
    let mut i: u128 = 1;
    while i <= n128
        invariant
            1 <= i <= n128 + 1,
            n128 == n,
            n128 < 0x1_0000_0000_0000_0000,
            forall|j: int| 1 <= j < i ==> #[trigger] (j * j) < n,
        decreases n128 + 1 - i,
    {
        assert(i * i <= n128 * n128) by (nonlinear_arith)
            requires
                1 <= i <= n128,
        ;
        assert(n128 * n128 < 0x1_0000_0000_0000_0000_0000_0000_0000_0000) by (nonlinear_arith)
            requires
                n128 < 0x1_0000_0000_0000_0000,
        ;
        let sq = i * i;
        if sq == n128 {
            return Some(i as usize);
        }
        if sq > n128 {
            assert forall|j: int| 1 <= j implies #[trigger] (j * j) != n by {
                if j >= i {
                    assert(j * j >= i * i) by (nonlinear_arith)
                        requires
                            j >= i,
                            i >= 1,
                    ;
                }
            }
            return None;
        }
        i += 1;
    }
    assert forall|j: int| 1 <= j implies #[trigger] (j * j) != n by {
        if j >= i {
            assert(j * j >= j) by (nonlinear_arith)
                requires
                    j >= 1,
            ;
        }
    }
    None
}

/// `n` is a perfect square (of a positive integer).
pub fn is_perfect_square(n: usize) -> (r: bool)
    ensures
        r == is_square(n as int),
{
    match square_root(n) {
        Some(_) => true,
        None => false,
    }
}

proof fn lemma_next_block(i: int, n: int, l: int)
    requires
        0 <= i < n,
        i % l == 0,
        n % l == 0,
        l > 0,
    ensures
        i + l <= n,
{
    vstd::arithmetic::div_mod::lemma_fundamental_div_mod(i, l);
    vstd::arithmetic::div_mod::lemma_fundamental_div_mod(n, l);
    let q1 = i / l;
    let q2 = n / l;
    assert(q1 < q2) by (nonlinear_arith)
        requires
            i == l * q1,
            n == l * q2,
            i < n,
            l > 0,
    ;
    assert(l * (q1 + 1) <= l * q2) by (nonlinear_arith)
        requires
            q1 + 1 <= q2,
            l > 0,
    ;
    assert(l * (q1 + 1) == l * q1 + l) by (nonlinear_arith);
}

/// Multiplies each block of `plaintext` by the key matrix, mod 26.
pub fn matmul(plaintext: &[u8], key: Vec<Vec<u8>>) -> (r: Vec<u8>)
    requires
        key@.len() > 0,
        plaintext@.len() as int % key@.len() as int == 0,
        forall|i: int| 0 <= i < plaintext@.len() ==> is_lower(#[trigger] plaintext@[i]),
        forall|j: int| 0 <= j < key@.len() ==> (#[trigger] key@[j])@.len() == key@.len(),
        forall|j: int, k: int|
            0 <= j < key@.len() && 0 <= k < key@.len() ==> is_lower(#[trigger] key@[j]@[k]),
    ensures
        r@ == hill_encode(plaintext@, key@.map_values(|row: Vec<u8>| row@)),
{
    let ghost rows = key@.map_values(|row: Vec<u8>| row@);
    let l = key.len();
    let mut result: Vec<u8> = Vec::new();
    let mut i: usize = 0;
    assert(plaintext@.take(0) =~= Seq::<u8>::empty());
    while i < plaintext.len()
        invariant
            l == key@.len(),
            l > 0,
            rows == key@.map_values(|row: Vec<u8>| row@),
            rows.len() == l,
            i <= plaintext@.len(),
            i % l == 0,
            plaintext@.len() as int % l as int == 0,
            forall|k: int| 0 <= k < plaintext@.len() ==> is_lower(#[trigger] plaintext@[k]),
            forall|j: int| 0 <= j < l ==> (#[trigger] key@[j])@.len() == l,
            forall|j: int, k: int| 0 <= j < l && 0 <= k < l ==> is_lower(#[trigger] key@[j]@[k]),
            result@ == hill_encode(plaintext@.take(i as int), rows),
        decreases plaintext@.len() - i,
    {
        proof {
            lemma_next_block(i as int, plaintext@.len() as int, l as int);
        }
        let ghost blk = plaintext@.subrange(i as int, i + l);
        let ghost before = result@;
        let mut j: usize = 0;
        while j < l
            invariant
                l == key@.len(),
                rows == key@.map_values(|row: Vec<u8>| row@),
                rows.len() == l,
                i + l <= plaintext@.len(),
                blk == plaintext@.subrange(i as int, i + l),
                j <= l,
                forall|k: int| 0 <= k < plaintext@.len() ==> is_lower(#[trigger] plaintext@[k]),
                forall|jj: int| 0 <= jj < l ==> (#[trigger] key@[jj])@.len() == l,
                forall|jj: int, k: int| 0 <= jj < l && 0 <= k < l ==> is_lower(#[trigger] key@[jj]@[k]),
                result@ == before + hill_block(blk, rows).take(j as int),
            decreases l - j,
        {
            let row = &key[j];
            let mut s: u32 = 0;
            let mut k: usize = 0;
            while k < l
                invariant
                    l == key@.len(),
                    i + l <= plaintext.len(),
                    j < l,
                    row@ == key@[j as int]@,
                    row@.len() == l,
                    blk == plaintext@.subrange(i as int, i + l),
                    k <= l,
                    s < 26,
                    s == row_dot(blk, row@, k as int) % 26,
                    forall|kk: int| 0 <= kk < plaintext@.len() ==> is_lower(#[trigger] plaintext@[kk]),
                    forall|kk: int| 0 <= kk < l ==> is_lower(#[trigger] row@[kk]),
                decreases l - k,
            {
                assert(is_lower(plaintext@[(i + k) as int]));
                let idx = i + k;
                let x = plaintext[idx];
                assert(x == plaintext@[idx as int]);
                let a = (x - 97) as u32;
                let b = (row[k] - 97) as u32;
                assert(a * b <= 625) by (nonlinear_arith)
                    requires
                        a <= 25,
                        b <= 25,
                ;
                proof {
                    vstd::arithmetic::div_mod::lemma_add_mod_noop(
                        row_dot(blk, row@, k as int),
                        (a * b) as int,
                        26,
                    );
                    vstd::arithmetic::div_mod::lemma_mod_twice((a * b) as int, 26);
                    vstd::arithmetic::div_mod::lemma_add_mod_noop(s as int, (a * b) as int, 26);
                    vstd::arithmetic::div_mod::lemma_mod_twice(row_dot(blk, row@, k as int), 26);
                }
                s = (s + a * b) % 26;
                k += 1;
            }
            assert(rows[j as int] == row@);
            result.push(s as u8 + 97);
            j += 1;
            assert(result@ =~= before + hill_block(blk, rows).take(j as int));
        }
        let ghost p2 = plaintext@.take(i + l);
        assert(p2.take(p2.len() - l) =~= plaintext@.take(i as int));
        assert(p2.skip(p2.len() - l) =~= blk);
        assert(hill_block(blk, rows).take(l as int) =~= hill_block(blk, rows));
        i += l;
        proof {
            vstd::arithmetic::div_mod::lemma_mod_add_multiples_vanish((i - l) as int, l as int);
        }
    }
    assert(plaintext@.take(i as int) =~= plaintext@);
    result
}

/// The positive square root of a square.
pub open spec fn side(n: int) -> int {
    choose|l: int| 1 <= l && #[trigger] (l * l) == n
}

proof fn lemma_side(n: int, l: int)
    requires
        1 <= l,
        l * l == n,
    ensures
        side(n) == l,
{
    assert(is_square(n));
    let s = side(n);
    assert(1 <= s && s * s == n);
    if s < l {
        assert(s * s < l * l) by (nonlinear_arith)
            requires
                1 <= s < l,
        ;
    } else if s > l {
        assert(l * l < s * s) by (nonlinear_arith)
            requires
                1 <= l < s,
        ;
    }
}

/// Four distinct random letters.
pub fn generate_key(rng: &mut ThreadRng) -> (r: Vec<u8>)
    ensures
        r@.len() == 4,
        forall|i: int| 0 <= i < 4 ==> is_lower(#[trigger] r@[i]),
        forall|i: int, j: int| 0 <= i < j < 4 ==> #[trigger] r@[i] != #[trigger] r@[j],
{
    let idx = sample_indices(rng, 26, 4);
    let k = crate::ciphers::substitution::letters_at(&idx);
    assert forall|i: int, j: int| 0 <= i < j < 4 implies #[trigger] k@[i] != #[trigger] k@[j] by {
        assert(idx@[i] != idx@[j]);
    }
    k
}

/// The letters of `b`, lowercased.
pub fn lower_letters_of(b: &Vec<u8>) -> (r: Vec<u8>)
    ensures
        r@ == lower_letters(b@),
        forall|i: int| 0 <= i < r@.len() ==> is_lower(#[trigger] r@[i]),
{
    let mut out: Vec<u8> = Vec::new();
    let mut i: usize = 0;
    while i < b.len()
        invariant
            i <= b@.len(),
            out@ == lower_letters(b@.take(i as int)),
            forall|k: int| 0 <= k < out@.len() ==> is_lower(#[trigger] out@[k]),
        decreases b@.len() - i,
    {
        let c = b[i];
        assert(b@.take(i + 1).drop_last() =~= b@.take(i as int));
        if (97 <= c && c <= 122) || (65 <= c && c <= 90) {
            out.push(if c <= 90 { c + 32 } else { c });
        }
        i += 1;
    }
    assert(b@.take(i as int) =~= b@);
    out
}

proof fn lemma_padded_len(n: int, l: int)
    requires
        0 <= n,
        l > 0,
    ensures
        (n + (if n % l == 0 { 0 } else { l - n % l })) % l == 0,
{
    vstd::arithmetic::div_mod::lemma_fundamental_div_mod(n, l);
    if n % l != 0 {
        assert(n + (l - n % l) == l * (n / l + 1)) by (nonlinear_arith)
            requires
                n == l * (n / l) + n % l,
        ;
        vstd::arithmetic::div_mod::lemma_mod_multiples_basic(n / l + 1, l);
    } else {
        vstd::arithmetic::div_mod::lemma_mod_multiples_basic(n / l, l);
    }
}

/// The Hill cipher with a supplied key of letters, which fails when the
/// key's length is not a perfect square.
pub fn hill_with_key(plaintext: &str, key: &str) -> (r: CipherResult<Cipher>)
    requires
        plaintext.is_ascii(),
        key.is_ascii(),
        all_letters(bytes_of(key@)),
    ensures
        !is_square(key@.len() as int) <==> r is Err,
        r is Err ==> r->Err_0.kind == ErrorKind::KeyError && r->Err_0.error@
            == "Key length must be a perfect square"@,
        is_square(key@.len() as int) ==> produces(
            r,
            hill_text(plaintext@, key@, side(key@.len() as int)),
            Some(key@),
        ),
{
    let kb = ascii_bytes(key);
    let n = kb.len();
    let l = match square_root(n) {
        Some(l) => l,
        None => {
            return Err(CipherError::new(ErrorKind::KeyError, "Key length must be a perfect square".to_owned()));
        },
    };
    proof {
        lemma_side(n as int, l as int);
        assert(is_square(n as int)) by {
            assert((l as int) * (l as int) == n as int);
        }
    }
    let lk = lower_letters_of(&kb);
    proof {
        lemma_all_letters(kb@);
    }
    let pb = ascii_bytes(plaintext);
    let mut text = lower_letters_of(&pb);
    let ghost letters = text@;
    let rem = text.len() % l;
    if rem != 0 {
        let mut t: usize = 0;
        while t < l - rem
            invariant
                t <= l - rem,
                rem < l,
                text@ == letters + Seq::new(t as nat, |i: int| 122u8),
            decreases l - rem - t,
        {
            text.push(122);
            t += 1;
            assert(text@ =~= letters + Seq::new(t as nat, |i: int| 122u8));
        }
    }
    assert(text@ =~= padded(letters, l as int));
    proof {
        lemma_padded_len(letters.len() as int, l as int);
    }
    let mut matrix: Vec<Vec<u8>> = Vec::new();
    let mut j: usize = 0;
    while j < l
        invariant
            j <= l,
            l * l == n,
            lk@.len() == n,
            forall|k: int| 0 <= k < n ==> is_lower(#[trigger] lk@[k]),
            matrix@.len() == j,
            forall|jj: int| 0 <= jj < j ==> (#[trigger] matrix@[jj])@ == key_rows(lk@, l as int)[jj],
        decreases l - j,
    {
        assert(j * l + l <= l * l) by (nonlinear_arith)
            requires
                j < l,
        ;
        let mut row: Vec<u8> = Vec::new();
        let mut k: usize = 0;
        while k < l
            invariant
                j < l,
                k <= l,
                j * l + l <= n,
                lk@.len() == n,
                row@ == lk@.subrange(j * l, j * l + k),
            decreases l - k,
        {
            row.push(lk[j * l + k]);
            k += 1;
            assert(row@ =~= lk@.subrange(j * l, j * l + k));
        }
        matrix.push(row);
        j += 1;
    }
    let ghost rows = key_rows(lk@, l as int);
    assert(matrix@.map_values(|row: Vec<u8>| row@) =~= rows);
    assert forall|jj: int| 0 <= jj < l implies (#[trigger] matrix@[jj])@.len() == l by {
        assert(matrix@[jj]@ == rows[jj]);
        assert(0 <= jj * l && jj * l + l <= l * l) by (nonlinear_arith)
            requires
                0 <= jj < l,
        ;
    }
    assert forall|jj: int, k: int| 0 <= jj < l && 0 <= k < l implies is_lower(#[trigger] matrix@[jj]@[k]) by {
        assert(matrix@[jj]@ == rows[jj]);
        assert(0 <= jj * l && jj * l + k < jj * l + l && jj * l + l <= l * l) by (nonlinear_arith)
            requires
                0 <= jj < l,
                0 <= k < l,
        ;
        assert(rows[jj][k] == lk@[jj * l + k]);
    }
    let out = matmul(text.as_slice(), matrix);
    proof {
        lemma_hill_letters(text@, rows);
    }
    Ok(Cipher::new(ascii_string(out), Some(key.to_owned())))
}

proof fn lemma_all_letters(b: Seq<u8>)
    requires
        forall|k: int| 0 <= k < b.len() ==> is_letter(#[trigger] b[k]),
    ensures
        lower_letters(b).len() == b.len(),
    decreases b.len(),
{
    if b.len() > 0 {
        lemma_all_letters(b.drop_last());
    }
}

proof fn lemma_hill_letters(p: Seq<u8>, rows: Seq<Seq<u8>>)
    ensures
        all_ascii(hill_encode(p, rows)),
    decreases p.len(),
{
    let l = rows.len() as int;
    if l != 0 && p.len() >= l {
        lemma_hill_letters(p.take(p.len() - l), rows);
        let a = hill_encode(p.take(p.len() - l), rows);
        let b = hill_block(p.skip(p.len() - l), rows);
        assert forall|i: int| 0 <= i < (a + b).len() implies #[trigger] (a + b)[i] < 128 by {
            if i >= a.len() {
                assert((a + b)[i] == b[i - a.len()]);
            }
        }
    }
}

/// The Hill cipher: with no key, one of four distinct random letters (a 2×2
/// matrix) is drawn.
pub fn hill(plaintext: &str, key: Option<String>, rng: &mut ThreadRng) -> (r: CipherResult<Cipher>)
    requires
        plaintext.is_ascii(),
        key matches Some(k) ==> k.is_ascii() && all_letters(bytes_of(k@)),
    ensures
        key matches Some(k) ==> {
            &&& (!is_square(k@.len() as int) <==> r is Err)
            &&& r is Err ==> r->Err_0.kind == ErrorKind::KeyError && r->Err_0.error@
                == "Key length must be a perfect square"@
            &&& is_square(k@.len() as int) ==> produces(
                r,
                hill_text(plaintext@, k@, side(k@.len() as int)),
                Some(k@),
            )
        },
        key is None ==> exists|k: Seq<char>|
            k.len() == 4 && valid_hill_key(bytes_of(k)) && #[trigger] produces(
                r,
                hill_text(plaintext@, k, 2),
                Some(k),
            ),
{
    match key {
        Some(k) => hill_with_key(plaintext, k.as_str()),
        None => {
            let kb = generate_key(rng);
            let k = ascii_string(kb);
            proof {
                crate::text::lemma_ascii_round_trip(kb@);
                assert(bytes_of(k@) == kb@);
                assert(k@.len() == 4);
                lemma_side(4, 2);
                assert(valid_hill_key(bytes_of(k@))) by {
                    assert(2 * 2 == 4);
                }
            }
            let r = hill_with_key(plaintext, k.as_str());
            assert(produces(r, hill_text(plaintext@, k@, 2), Some(k@)));
            r
        },
    }
}

} // verus!
