//! The word corpus: words of five to seven bytes from a comma-separated list.
use vstd::prelude::*;
use crate::text::{is_space_byte, all_ascii, ascii_bytes, ascii_string, bytes_of, chars_of, is_space};

verus! {

/// The pieces of `b` between commas (an empty text is one empty piece).
pub open spec fn comma_pieces(b: Seq<u8>) -> Seq<Seq<u8>>
    decreases b.len(),
{
    if b.len() == 0 {
        seq![Seq::empty()]
    } else {
        let p = comma_pieces(b.drop_last());
        if b.last() == 44 {
            p.push(Seq::empty())
        } else {
            p.drop_last().push(p.last().push(b.last()))
        }
    }
}

/// `b` without leading whitespace.
pub open spec fn trim_start(b: Seq<u8>) -> Seq<u8>
    decreases b.len(),
{
    if b.len() > 0 && is_space(b[0]) {
        trim_start(b.drop_first())
    } else {
        b
    }
}

/// `b` without trailing whitespace.
pub open spec fn trim_end(b: Seq<u8>) -> Seq<u8>
    decreases b.len(),
{
    if b.len() > 0 && is_space(b.last()) {
        trim_end(b.drop_last())
    } else {
        b
    }
}

/// The pieces that are words of the corpus: longer than four bytes and
/// shorter than eight.
pub open spec fn corpus_pieces(ps: Seq<Seq<u8>>) -> Seq<Seq<u8>>
    decreases ps.len(),
{
    if ps.len() == 0 {
        Seq::empty()
    } else {
        let k = corpus_pieces(ps.drop_last());
        if 4 < ps.last().len() < 8 {
            k.push(ps.last())
        } else {
            k
        }
    }
}

/// The characters of each byte word.
pub open spec fn char_words(ps: Seq<Seq<u8>>) -> Seq<Seq<char>> {
    ps.map_values(|w: Seq<u8>| chars_of(w))
}

/// The corpus words of a comma-separated list.
pub open spec fn corpus_of(b: Seq<u8>) -> Seq<Seq<u8>> {
    corpus_pieces(comma_pieces(trim_end(trim_start(b))))
}

/// The characters of each word.
pub open spec fn word_views(ws: Seq<String>) -> Seq<Seq<char>> {
    ws.map_values(|w: String| w@)
}

/// The words of the comma-separated list `contents` (surrounding whitespace
/// ignored) that have five to seven bytes, in order.
pub fn word_list(contents: &str) -> (r: Vec<String>)
    requires
        contents.is_ascii(),
    ensures
        word_views(r@) == char_words(corpus_of(bytes_of(contents@))),
        forall|i: int| 0 <= i < r@.len() ==> (#[trigger] r@[i]).is_ascii(),
{
    let b = ascii_bytes(contents);
    let ghost full = b@;
    let mut lo: usize = 0;
    assert(trim_start(full.subrange(0, full.len() as int)) == trim_start(full)) by {
        assert(full.subrange(0, full.len() as int) =~= full);
    }
    while lo < b.len() && is_space_byte(b[lo])
        invariant
            lo <= b@.len(),
            full == b@,
            trim_start(full) == trim_start(full.subrange(lo as int, full.len() as int)),
        decreases b@.len() - lo,
    {
        assert(full.subrange(lo as int, full.len() as int).drop_first() =~= full.subrange(lo + 1, full.len() as int));
        lo += 1;
    }
    let ghost start = full.subrange(lo as int, full.len() as int);
    assert(trim_start(full) == start);
    let mut hi: usize = b.len();
    assert(start.subrange(0, (hi - lo) as int) =~= start);
    while hi > lo && is_space_byte(b[hi - 1])
        invariant
            lo <= hi <= b@.len(),
            full == b@,
            start == full.subrange(lo as int, full.len() as int),
            trim_end(start) == trim_end(full.subrange(lo as int, hi as int)),
        decreases hi,
    {
        assert(full.subrange(lo as int, hi as int).drop_last() =~= full.subrange(lo as int, hi - 1));
        hi -= 1;
    }
    let ghost body = full.subrange(lo as int, hi as int);
    assert(trim_end(body) == body);
    let mut out: Vec<String> = Vec::new();
    let mut piece: Vec<u8> = Vec::new();
    let mut i: usize = lo;
    assert(body.take(0) =~= Seq::<u8>::empty());
    while i < hi
        invariant
            lo <= i <= hi,
            hi <= b@.len(),
            full == b@,
            all_ascii(full),
            body == full.subrange(lo as int, hi as int),
            comma_pieces(body.take(i - lo)).len() >= 1,
            piece@ == comma_pieces(body.take(i - lo)).last(),
            all_ascii(piece@),
            word_views(out@) == char_words(corpus_pieces(comma_pieces(body.take(i - lo)).drop_last())),
            forall|k: int| 0 <= k < out@.len() ==> (#[trigger] out@[k]).is_ascii(),
        decreases hi - i,
    {
        let c = b[i];
        let ghost p = comma_pieces(body.take(i - lo));
        let ghost t = body.take(i - lo + 1);
        assert(t.drop_last() =~= body.take(i - lo));
        assert(t.last() == c);
        if c == 44 {
            let n = piece.len();
            assert(p.push(Seq::empty()).drop_last() =~= p);
            assert(p.drop_last().push(p.last()) =~= p);
            if 4 < n && n < 8 {
                proof {
                    crate::text::lemma_ascii_round_trip(piece@);
                }
                let w = ascii_string(piece);
                let ghost before = word_views(out@);
                out.push(w);
                assert(word_views(out@) =~= before.push(chars_of(p.last())));
                assert(char_words(corpus_pieces(p)) =~= char_words(corpus_pieces(p.drop_last())).push(chars_of(p.last())));
            }
            piece = Vec::new();
            assert(piece@ =~= Seq::<u8>::empty());
        } else {
            piece.push(c);
            assert(p.drop_last().push(p.last().push(c)).drop_last() =~= p.drop_last());
        }
        i += 1;
    }
    let ghost p = comma_pieces(body.take(i - lo));
    assert(body.take(i - lo) =~= body);
    assert(p.drop_last().push(p.last()) =~= p);
    let n = piece.len();
    if 4 < n && n < 8 {
        proof {
            crate::text::lemma_ascii_round_trip(piece@);
        }
        let w = ascii_string(piece);
        let ghost before = word_views(out@);
        out.push(w);
        assert(word_views(out@) =~= before.push(chars_of(p.last())));
        assert(char_words(corpus_pieces(p)) =~= char_words(corpus_pieces(p.drop_last())).push(chars_of(p.last())));
    }
    out
}

} // verus!
