//! Byte-level models of ASCII text.
use vstd::prelude::*;
use vstd::string::StringSliceAdditionalSpecFns;

verus! {

/// The bytes of an ASCII string.
pub open spec fn bytes_of(s: Seq<char>) -> Seq<u8> {
    s.map_values(|c: char| c as u8)
}

/// The characters of a sequence of ASCII bytes.
pub open spec fn chars_of(b: Seq<u8>) -> Seq<char> {
    b.map_values(|x: u8| x as char)
}

pub open spec fn is_ascii_byte(b: u8) -> bool {
    b < 128
}

pub open spec fn all_ascii(b: Seq<u8>) -> bool {
    forall|i: int| 0 <= i < b.len() ==> is_ascii_byte(#[trigger] b[i])
}

pub open spec fn is_lower(b: u8) -> bool {
    97 <= b <= 122
}

pub open spec fn is_upper(b: u8) -> bool {
    65 <= b <= 90
}

pub open spec fn is_letter(b: u8) -> bool {
    is_lower(b) || is_upper(b)
}

/// ASCII whitespace as `u8::is_ascii_whitespace` defines it.
pub open spec fn is_space(b: u8) -> bool {
    b == 32 || b == 9 || b == 10 || b == 12 || b == 13
}

/// Whether `b` is ASCII whitespace.
pub fn is_space_byte(b: u8) -> (r: bool)
    ensures
        r == is_space(b),
{
    b == 32 || b == 9 || b == 10 || b == 12 || b == 13
}

/// Zero-based position of a letter in the alphabet, whatever its case.
pub open spec fn letter_index(b: u8) -> int {
    if is_lower(b) {
        b - 97
    } else {
        b - 65
    }
}

pub open spec fn lower_of(b: u8) -> u8 {
    if is_upper(b) {
        (b + 32) as u8
    } else {
        b
    }
}

/// ASCII bytes read back as characters give the same bytes.
pub proof fn lemma_ascii_round_trip(b: Seq<u8>)
    requires
        all_ascii(b),
    ensures
        bytes_of(chars_of(b)) == b,
        vstd::utf8::is_ascii_chars(chars_of(b)),
{
    assert(bytes_of(chars_of(b)) =~= b);
}

/// The ASCII uppercase form of each byte.
pub open spec fn uppercased(b: Seq<u8>) -> Seq<u8> {
    b.map_values(|x: u8| if is_lower(x) { (x - 32) as u8 } else { x })
}

/// Uppercases the ASCII letters of `s`.
pub fn to_ascii_upper(s: &str) -> (r: String)
    requires
        s.is_ascii(),
    ensures
        r@ == chars_of(uppercased(bytes_of(s@))),
        r.is_ascii(),
{
    let b = ascii_bytes(s);
    let mut out: Vec<u8> = Vec::new();
    let mut i: usize = 0;
    while i < b.len()
        invariant
            i <= b@.len(),
            all_ascii(b@),
            out@ == uppercased(b@).take(i as int),
            all_ascii(out@),
        decreases b@.len() - i,
    {
        let c = b[i];
        out.push(if 97 <= c && c <= 122 { c - 32 } else { c });
        i += 1;
        assert(out@ =~= uppercased(b@).take(i as int));
    }
    assert(out@ =~= uppercased(b@));
    ascii_string(out)
}

/// Reads the bytes of an ASCII string.
pub fn ascii_bytes(s: &str) -> (r: Vec<u8>)
    requires
        s.is_ascii(),
    ensures
        r@ == bytes_of(s@),
        all_ascii(r@),
{
    let b = s.as_bytes();
    proof {
        vstd::string::is_ascii_spec_bytes(s);
    }
    let mut out: Vec<u8> = Vec::new();
    let mut i: usize = 0;
    while i < b.len()
        invariant
            0 <= i <= b@.len(),
            b@ == s.spec_bytes(),
            s.spec_bytes() =~= Seq::new(s@.len(), |j| s@.index(j) as u8),
            vstd::utf8::is_ascii_chars(s@),
            out@ == bytes_of(s@).take(i as int),
            all_ascii(out@),
        decreases b@.len() - i,
    {
        assert((s@[i as int] as u8) < 128);
        out.push(b[i]);
        i += 1;
        assert(out@ =~= bytes_of(s@).take(i as int));
    }
    assert(out@ =~= bytes_of(s@));
    out
}

/// Relies on `String::from_utf8`: every sequence of ASCII bytes is valid
/// UTF-8 and becomes the string of those characters.
#[verifier::external_body]
pub(crate) fn ascii_string(b: Vec<u8>) -> (r: String)
    requires
        all_ascii(b@),
    ensures
        r@ == chars_of(b@),
        r.is_ascii(),
{
    String::from_utf8(b).unwrap()
}

} // verus!
