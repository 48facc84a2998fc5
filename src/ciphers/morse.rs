//! Morse code, and the two Morse ciphers Morbit and Pollux.
use vstd::prelude::*;
use crate::text::{is_space_byte, ascii_string, chars_of, is_letter, is_space, letter_index};

pub mod morbit;
pub mod pollux;

verus! {

/// The Morse code of each letter, `.` as 46 and `-` as 45.
pub open spec fn morse_table() -> Seq<Seq<u8>> {
    seq![
        seq![46u8, 45],
        seq![45u8, 46, 46, 46],
        seq![45u8, 46, 45, 46],
        seq![45u8, 46, 46],
        seq![46u8],
        seq![46u8, 46, 45, 46],
        seq![45u8, 45, 46],
        seq![46u8, 46, 46, 46],
        seq![46u8, 46],
        seq![46u8, 45, 45, 45],
        seq![45u8, 46, 45],
        seq![46u8, 45, 46, 46],
        seq![45u8, 45],
        seq![45u8, 46],
        seq![45u8, 45, 45],
        seq![46u8, 45, 45, 46],
        seq![45u8, 45, 46, 45],
        seq![46u8, 45, 46],
        seq![46u8, 46, 46],
        seq![45u8],
        seq![46u8, 46, 45],
        seq![46u8, 46, 46, 45],
        seq![46u8, 45, 45],
        seq![45u8, 46, 46, 45],
        seq![45u8, 46, 45, 45],
        seq![45u8, 45, 46, 46],
    ]
}

/// The Morse code of the letter with alphabet position `i`.
fn morse_symbols(i: usize) -> (r: Vec<u8>)
    requires
        i < 26,
    ensures
        r@ == morse_table()[i as int],
{
    if i == 0 {
        vec![46u8, 45]
    } else if i == 1 {
        vec![45u8, 46, 46, 46]
    } else if i == 2 {
        vec![45u8, 46, 45, 46]
    } else if i == 3 {
        vec![45u8, 46, 46]
    } else if i == 4 {
        vec![46u8]
    } else if i == 5 {
        vec![46u8, 46, 45, 46]
    } else if i == 6 {
        vec![45u8, 45, 46]
    } else if i == 7 {
        vec![46u8, 46, 46, 46]
    } else if i == 8 {
        vec![46u8, 46]
    } else if i == 9 {
        vec![46u8, 45, 45, 45]
    } else if i == 10 {
        vec![45u8, 46, 45]
    } else if i == 11 {
        vec![46u8, 45, 46, 46]
    } else if i == 12 {
        vec![45u8, 45]
    } else if i == 13 {
        vec![45u8, 46]
    } else if i == 14 {
        vec![45u8, 45, 45]
    } else if i == 15 {
        vec![46u8, 45, 45, 46]
    } else if i == 16 {
        vec![45u8, 45, 46, 45]
    } else if i == 17 {
        vec![46u8, 45, 46]
    } else if i == 18 {
        vec![46u8, 46, 46]
    } else if i == 19 {
        vec![45u8]
    } else if i == 20 {
        vec![46u8, 46, 45]
    } else if i == 21 {
        vec![46u8, 46, 46, 45]
    } else if i == 22 {
        vec![46u8, 45, 45]
    } else if i == 23 {
        vec![45u8, 46, 46, 45]
    } else if i == 24 {
        vec![45u8, 46, 45, 45]
    } else {
        vec![45u8, 45, 46, 46]
    }
}

/// Encodes an ASCII letter in Morse code.
pub fn morse_encode(b: u8) -> (r: String)
    requires
        is_letter(b),
    ensures
        r@ == chars_of(morse_table()[letter_index(b)]),
{
    let i: usize = if b >= 97 { (b - 97) as usize } else { (b - 65) as usize };
    ascii_string(morse_symbols(i))
}

/// The byte sequences held by a vector of vectors.
pub open spec fn byte_rows(v: Seq<Vec<u8>>) -> Seq<Seq<u8>> {
    v.map_values(|w: Vec<u8>| w@)
}

/// The words of `b`: maximal runs of bytes that are not ASCII whitespace.
pub open spec fn split_words(b: Seq<u8>) -> Seq<Seq<u8>>
    decreases b.len(),
{
    if b.len() == 0 {
        Seq::empty()
    } else {
        let w = split_words(b.drop_last());
        let c = b.last();
        if is_space(c) {
            w
        } else if b.len() >= 2 && !is_space(b[b.len() - 2]) {
            w.drop_last().push(w.last().push(c))
        } else {
            w.push(seq![c])
        }
    }
}

/// The Morse codes of the letters of a word joined by `/`; other bytes are
/// left out.
pub open spec fn word_morse(w: Seq<u8>) -> Seq<u8>
    decreases w.len(),
{
    if w.len() == 0 {
        Seq::empty()
    } else {
        let p = word_morse(w.drop_last());
        let c = w.last();
        if !is_letter(c) {
            p
        } else if p.len() == 0 {
            morse_table()[letter_index(c)]
        } else {
            p.push(47u8) + morse_table()[letter_index(c)]
        }
    }
}

/// The Morse codes of the words joined by `//`.
pub open spec fn join_words(ws: Seq<Seq<u8>>) -> Seq<u8>
    decreases ws.len(),
{
    if ws.len() == 0 {
        Seq::empty()
    } else if ws.len() == 1 {
        word_morse(ws[0])
    } else {
        join_words(ws.drop_last()) + seq![47u8, 47u8] + word_morse(ws.last())
    }
}

/// The Morse stream of a text: letters within a word separated by `/`,
/// words by `//`.
pub open spec fn morse_stream(b: Seq<u8>) -> Seq<u8> {
    join_words(split_words(b))
}

/// A Morse symbol: `.`, `-` or `/`.
pub open spec fn is_mark(c: u8) -> bool {
    c == 46 || c == 45 || c == 47
}

proof fn lemma_table_marks()
    ensures
        forall|i: int, j: int|
            0 <= i < 26 && 0 <= j < morse_table()[i].len() ==> is_mark(#[trigger] morse_table()[i][j]),
        forall|i: int| 0 <= i < 26 ==> #[trigger] morse_table()[i].len() > 0,
{
}

/// Splits `b` into its words.
pub fn words_of(b: &Vec<u8>) -> (r: Vec<Vec<u8>>)
    ensures
        byte_rows(r@) == split_words(b@),
{
    let mut out: Vec<Vec<u8>> = Vec::new();
    let mut i: usize = 0;
    while i < b.len()
        invariant
            i <= b@.len(),
            byte_rows(out@) == split_words(b@.take(i as int)),
            i > 0 && !is_space(b@[i - 1]) ==> out@.len() > 0,
        decreases b@.len() - i,
    {
        let c = b[i];
        let ghost prev = b@.take(i as int);
        assert(b@.take(i + 1).drop_last() =~= prev);
        proof {
            if i > 0 {
                assert(b@.take(i + 1)[i - 1] == b@[i - 1]);
            }
        }
        if is_space_byte(c) {
        } else if i > 0 && !is_space_byte(b[i - 1]) {
            let ghost ws = byte_rows(out@);
            let mut last = out.pop().unwrap();
            assert(last@ == ws.last());
            assert(byte_rows(out@) =~= ws.drop_last());
            last.push(c);
            out.push(last);
            assert(byte_rows(out@) =~= ws.drop_last().push(ws.last().push(c)));
            let ghost t = b@.take(i + 1);
            assert(t.last() == c);
            assert(t.len() >= 2);
            assert(t[t.len() - 2] == b@[i - 1]);
            assert(split_words(t.drop_last()) == ws);
            assert(split_words(t) == ws.drop_last().push(ws.last().push(c)));
            assert(byte_rows(out@) =~= split_words(b@.take(i + 1)));
        } else {
            let ghost ws = byte_rows(out@);
            let single = vec![c];
            assert(single@ =~= seq![c]);
            out.push(single);
            assert(byte_rows(out@) =~= ws.push(seq![c]));
            let ghost t = b@.take(i + 1);
            assert(t.last() == c);
            assert(i > 0 ==> t[t.len() - 2] == b@[i - 1]);
            assert(split_words(t.drop_last()) == ws);
            assert(split_words(t) == ws.push(seq![c]));
            assert(byte_rows(out@) =~= split_words(b@.take(i + 1)));
        }
        i += 1;
    }
    assert(b@.take(i as int) =~= b@);
    out
}

/// The Morse codes of the letters of `w`, joined by `/`.
fn word_to_morse(w: &Vec<u8>) -> (r: Vec<u8>)
    ensures
        r@ == word_morse(w@),
        forall|k: int| 0 <= k < r@.len() ==> is_mark(#[trigger] r@[k]),
{
    proof {
        lemma_table_marks();
    }
    let mut out: Vec<u8> = Vec::new();
    let mut i: usize = 0;
    while i < w.len()
        invariant
            i <= w@.len(),
            out@ == word_morse(w@.take(i as int)),
            forall|k: int| 0 <= k < out@.len() ==> is_mark(#[trigger] out@[k]),
            forall|a: int, j: int|
                0 <= a < 26 && 0 <= j < morse_table()[a].len() ==> is_mark(#[trigger] morse_table()[a][j]),
            forall|a: int| 0 <= a < 26 ==> #[trigger] morse_table()[a].len() > 0,
        decreases w@.len() - i,
    {
        let c = w[i];
        assert(w@.take(i + 1).drop_last() =~= w@.take(i as int));
        if (97 <= c && c <= 122) || (65 <= c && c <= 90) {
            let idx: usize = if c >= 97 { (c - 97) as usize } else { (c - 65) as usize };
            let code = morse_symbols(idx);
            let ghost before = out@;
            if out.len() > 0 {
                out.push(47);
            }
            let mut k: usize = 0;
            let ghost base = out@;
            while k < code.len()
                invariant
                    k <= code@.len(),
                    out@ == base + code@.take(k as int),
                decreases code@.len() - k,
            {
                out.push(code[k]);
                k += 1;
                assert(out@ =~= base + code@.take(k as int));
            }
            assert(code@.take(k as int) =~= code@);
            assert forall|k2: int| 0 <= k2 < out@.len() implies is_mark(#[trigger] out@[k2]) by {
                if k2 >= base.len() {
                    assert(out@[k2] == code@[k2 - base.len()]);
                } else if k2 >= before.len() {
                } else {
                    assert(out@[k2] == before[k2]);
                }
            }
        }
        i += 1;
    }
    assert(w@.take(i as int) =~= w@);
    out
}

/// The Morse stream of the bytes `b`.
pub fn morse_stream_of(b: &Vec<u8>) -> (r: Vec<u8>)
    ensures
        r@ == morse_stream(b@),
        forall|k: int| 0 <= k < r@.len() ==> is_mark(#[trigger] r@[k]),
{
    let words = words_of(b);
    let ghost ws = byte_rows(words@);
    let mut out: Vec<u8> = Vec::new();
    let mut i: usize = 0;
    while i < words.len()
        invariant
            i <= words@.len(),
            ws == byte_rows(words@),
            out@ == join_words(ws.take(i as int)),
            forall|k: int| 0 <= k < out@.len() ==> is_mark(#[trigger] out@[k]),
        decreases words@.len() - i,
    {
        let m = word_to_morse(&words[i]);
        let ghost before = out@;
        assert(ws.take(i + 1).drop_last() =~= ws.take(i as int));
        assert(ws[i as int] == words@[i as int]@);
        if i > 0 {
            out.push(47);
            out.push(47);
        }
        let mut k: usize = 0;
        let ghost base = out@;
        while k < m.len()
            invariant
                k <= m@.len(),
                out@ == base + m@.take(k as int),
            decreases m@.len() - k,
        {
            out.push(m[k]);
            k += 1;
            assert(out@ =~= base + m@.take(k as int));
        }
        assert(m@.take(k as int) =~= m@);
        i += 1;
        assert(out@ =~= join_words(ws.take(i as int)));
        assert forall|k2: int| 0 <= k2 < out@.len() implies is_mark(#[trigger] out@[k2]) by {
            if k2 >= base.len() {
                assert(out@[k2] == m@[k2 - base.len()]);
            } else if k2 >= before.len() {
            } else {
                assert(out@[k2] == before[k2]);
            }
        }
    }
    assert(ws.take(i as int) =~= ws);
    out
}

} // verus!
