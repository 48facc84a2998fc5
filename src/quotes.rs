//! Quotations to encrypt, chosen by length.
use vstd::prelude::*;
use rand::rngs::ThreadRng;
use crate::random::choose_one;

verus! {

/// The length classes of a quotation.
#[derive(Debug, Clone, Copy, PartialEq, Eq, Structural)]
pub enum Length {
    /// 60 to 89 characters.
    Short,
    /// 90 to 119 characters.
    Medium,
    /// 120 to 149 characters.
    Long,
}

/// The least length of a class; the class spans 30 lengths from there.
pub open spec fn length_start(l: Length) -> int {
    match l {
        Length::Short => 60,
        Length::Medium => 90,
        Length::Long => 120,
    }
}

/// A quotation, its author if known, and its length.
#[derive(Debug)]
pub struct Quote {
    pub text: String,
    pub author: Option<String>,
    pub length: usize,
}

/// The quotation's length falls in the class.
pub open spec fn in_class(q: Quote, l: Length) -> bool {
    length_start(l) <= q.text@.len() < length_start(l) + 30
}

impl Quote {
    pub fn new(text: String, author: Option<String>) -> (r: Self)
        ensures
            r.text == text,
            r.author == author,
            r.length == text@.len(),
    {
        let length = text.as_str().unicode_len();
        Self { text, author, length }
    }
}

fn clone_author(a: &Option<String>) -> (r: Option<String>)
    ensures
        r == *a,
{
    match a {
        Some(s) => Some(s.clone()),
        None => None,
    }
}

/// A random quotation of the length class, if there is one.
pub fn fetch_quote(quotes: &Vec<Quote>, length: Length, rng: &mut ThreadRng) -> (r: Option<Quote>)
    ensures
        r is None <==> !exists|i: int| 0 <= i < quotes@.len() && #[trigger] in_class(quotes@[i], length),
        r matches Some(q) ==> exists|i: int|
            0 <= i < quotes@.len() && #[trigger] in_class(quotes@[i], length) && q.text == quotes@[i].text
                && q.author == quotes@[i].author && q.length == q.text@.len(),
{
    let start: usize = match length {
        Length::Short => 60,
        Length::Medium => 90,
        Length::Long => 120,
    };
    let mut fitting: Vec<usize> = Vec::new();
    let mut i: usize = 0;
    while i < quotes.len()
        invariant
            i <= quotes@.len(),
            start == length_start(length),
            forall|k: int| 0 <= k < fitting@.len() ==> #[trigger] fitting@[k] < quotes@.len() && in_class(
                quotes@[fitting@[k] as int],
                length,
            ),
            forall|k: int| 0 <= k < i && #[trigger] in_class(quotes@[k], length) ==> fitting@.contains(k as usize),
        decreases quotes@.len() - i,
    {
        let n = quotes[i].text.as_str().unicode_len();
        let ghost before = fitting@;
        if start <= n && n < start + 30 {
            fitting.push(i);
            assert(fitting@[before.len() as int] == i);
        }
        assert forall|k: int| 0 <= k <= i && #[trigger] in_class(quotes@[k], length) implies fitting@.contains(
            k as usize,
        ) by {
            if k < i {
                let j = choose|j: int| 0 <= j < before.len() && before[j] == k as usize;
                assert(fitting@[j] == before[j]);
            }
        }
        i += 1;
    }
    if fitting.len() == 0 {
        assert forall|k: int| 0 <= k < quotes@.len() implies !#[trigger] in_class(quotes@[k], length) by {
            if in_class(quotes@[k], length) {
                assert(fitting@.contains(k as usize));
            }
        }
        return None;
    }
    let pick = *choose_one(&fitting, rng);
    let q = &quotes[pick];
    assert(in_class(quotes@[pick as int], length)) by {
        let k = choose|k: int| 0 <= k < fitting@.len() && fitting@[k] == pick;
        assert(fitting@[k] < quotes@.len());
    }
    Some(Quote::new(q.text.clone(), clone_author(&q.author)))
}

} // verus!
