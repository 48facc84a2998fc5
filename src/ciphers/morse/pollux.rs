//! The Pollux cipher: each Morse symbol becomes a random digit of its group.
use vstd::prelude::*;
use rand::rngs::ThreadRng;
use crate::ciphers::{produces, Cipher, CipherResult};
use crate::ciphers::morse::{is_mark, morse_stream, morse_stream_of};
use crate::random::{choose_one, shuffle};
use crate::text::{all_ascii, ascii_bytes, ascii_string, bytes_of, chars_of};

verus! {

/// The digit characters `0` to `9`.
pub open spec fn digit_seq() -> Seq<u8> {
    Seq::new(10, |i: int| (48 + i) as u8)
}

/// An order of the ten digits: the first three stand for the separator `/`,
/// the next three for `-`, the next three for `.`, the last one for nothing.
pub open spec fn is_digit_order(order: Seq<u8>) -> bool {
    &&& order.len() == 10
    &&& forall|i: int| 0 <= i < 10 ==> 48 <= #[trigger] order[i] <= 57
    &&& forall|i: int, j: int| 0 <= i < j < 10 ==> #[trigger] order[i] != #[trigger] order[j]
}

/// The group of a Morse symbol: `/` 0, `-` 1, `.` 2.
pub open spec fn group_of(c: u8) -> int {
    if c == 47 {
        0
    } else if c == 45 {
        1
    } else {
        2
    }
}

/// Symbol `i` becomes digit `picks[i]` of its group.
pub open spec fn pollux_digits(m: Seq<u8>, order: Seq<u8>, picks: Seq<u8>) -> Seq<u8> {
    Seq::new(m.len(), |i: int| order[3 * group_of(m[i]) + picks[i]])
}

/// The ten digits in random order.
pub fn make_mapping(rng: &mut ThreadRng) -> (r: Vec<u8>)
    ensures
        is_digit_order(r@),
{
    let mut v: Vec<u8> = Vec::new();
    let mut i: u8 = 0;
    while i < 10
        invariant
            i <= 10,
            v@ == digit_seq().take(i as int),
        decreases 10 - i,
    {
        v.push(48 + i);
        i += 1;
        assert(v@ =~= digit_seq().take(i as int));
    }
    assert(v@ =~= digit_seq());
    shuffle(&mut v, rng);
    proof {
        lemma_shuffled_digits(v@);
    }
    v
}

proof fn lemma_shuffled_digits(m: Seq<u8>)
    requires
        m.to_multiset() == digit_seq().to_multiset(),
    ensures
        is_digit_order(m),
{
    broadcast use vstd::seq_lib::group_to_multiset_ensures;

    let a = digit_seq();
    m.to_multiset_ensures();
    a.to_multiset_ensures();
    assert(a.no_duplicates());
    a.lemma_multiset_has_no_duplicates();
    m.lemma_multiset_has_no_duplicates_conv();
    assert forall|i: int| 0 <= i < 10 implies 48 <= #[trigger] m[i] <= 57 by {
        assert(m.contains(m[i]));
        assert(m.to_multiset().count(m[i]) > 0);
        assert(a.to_multiset().count(m[i]) > 0);
        assert(a.contains(m[i]));
    }
}

/// Pollux with a given digit order and given picks within the groups.
pub fn pollux_with(plaintext: &str, order: &Vec<u8>, picks: &Vec<u8>) -> (r: CipherResult<Cipher>)
    requires
        plaintext.is_ascii(),
        is_digit_order(order@),
        picks@.len() >= morse_stream(bytes_of(plaintext@)).len(),
        forall|i: int| 0 <= i < picks@.len() ==> #[trigger] picks@[i] < 3,
    ensures
        produces(
            r,
            chars_of(
                pollux_digits(
                    morse_stream(bytes_of(plaintext@)),
                    order@,
                    picks@.take(morse_stream(bytes_of(plaintext@)).len() as int),
                ),
            ),
            None,
        ),
{
    let b = ascii_bytes(plaintext);
    let m = morse_stream_of(&b);
    let ghost pk = picks@.take(m@.len() as int);
    let mut out: Vec<u8> = Vec::new();
    let mut i: usize = 0;
    while i < m.len()
        invariant
            i <= m@.len(),
            m@.len() <= picks@.len(),
            pk == picks@.take(m@.len() as int),
            is_digit_order(order@),
            forall|k: int| 0 <= k < picks@.len() ==> #[trigger] picks@[k] < 3,
            out@ == pollux_digits(m@, order@, pk).take(i as int),
            all_ascii(out@),
        decreases m@.len() - i,
    {
        let c = m[i];
        let g: usize = if c == 47 { 0 } else if c == 45 { 1 } else { 2 };
        let p = picks[i] as usize;
        assert(picks@[i as int] < 3);
        out.push(order[3 * g + p]);
        i += 1;
        assert(out@ =~= pollux_digits(m@, order@, pk).take(i as int));
    }
    assert(out@ =~= pollux_digits(m@, order@, pk));
    Ok(Cipher::new(ascii_string(out), None))
}

/// Pollux: the ten digits are split at random into a group of three for each
/// Morse symbol, and each symbol becomes a random digit of its group. No key
/// is returned.
pub fn pollux(plaintext: &str, rng: &mut ThreadRng) -> (r: CipherResult<Cipher>)
    requires
        plaintext.is_ascii(),
    ensures
        exists|order: Seq<u8>, picks: Seq<u8>|
            is_digit_order(order) && picks.len() == morse_stream(bytes_of(plaintext@)).len() && (forall|
                i: int,
            | 0 <= i < picks.len() ==> #[trigger] picks[i] < 3) && #[trigger] produces(
                r,
                chars_of(pollux_digits(morse_stream(bytes_of(plaintext@)), order, picks)),
                None,
            ),
{
    let order = make_mapping(rng);
    let b = ascii_bytes(plaintext);
    let m = morse_stream_of(&b);
    let n = m.len();
    let mut picks: Vec<u8> = Vec::new();
    while picks.len() < n
        invariant
            picks@.len() <= n,
            n == m@.len(),
            is_digit_order(order@),
            forall|k: int| 0 <= k < picks@.len() ==> #[trigger] picks@[k] < 3,
        decreases n - picks@.len(),
    {
        let c = m[picks.len()];
        let g: usize = if c == 47 { 0 } else if c == 45 { 1 } else { 2 };
        let group = vec![order[3 * g], order[3 * g + 1], order[3 * g + 2]];
        let d = *choose_one(&group, rng);
        let p: u8 = if group[0] == d { 0 } else if group[1] == d { 1 } else { 2 };
        picks.push(p);
    }
    let r = pollux_with(plaintext, &order, &picks);
    assert(picks@.take(n as int) =~= picks@);
    assert(produces(r, chars_of(pollux_digits(morse_stream(bytes_of(plaintext@)), order@, picks@)), None));
    r
}

} // verus!
