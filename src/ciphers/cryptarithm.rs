//! Cryptarithm search: two words of the corpus whose sum, under some
//! assignment of distinct digits to their letters, spells exactly one other
//! word of the corpus (as SEND + MORE = MONEY).
use vstd::prelude::*;
use itertools::Itertools;
use rayon::iter::{IntoParallelRefIterator, ParallelIterator};
use rand::rngs::ThreadRng;
use crate::ciphers::{Cipher, CipherError, CipherResult, ErrorKind};
use crate::ciphers::substitution::ascii_words;
use crate::random::sample_indices;
use crate::text::{all_ascii, ascii_bytes, ascii_string, bytes_of, chars_of};

verus! {

/// The distinct bytes of `s`, in order of first occurrence.
pub open spec fn distinct_bytes(s: Seq<u8>) -> Seq<u8>
    decreases s.len(),
{
    if s.len() == 0 {
        Seq::empty()
    } else {
        let p = distinct_bytes(s.drop_last());
        if p.contains(s.last()) {
            p
        } else {
            p.push(s.last())
        }
    }
}

proof fn lemma_distinct_nonempty(s: Seq<u8>)
    ensures
        s.len() >= 1 ==> distinct_bytes(s).len() >= 1,
    decreases s.len(),
{
    if s.len() > 1 {
        lemma_distinct_nonempty(s.drop_last());
    }
}

/// The digit that the assignment `letters[i] -> digits[i]` gives `c`.
pub open spec fn digit_for(letters: Seq<u8>, digits: Seq<u8>, c: u8) -> int
    decreases letters.len(),
{
    if letters.len() == 0 {
        0
    } else if letters.last() == c {
        digits[letters.len() - 1] as int
    } else {
        digit_for(letters.drop_last(), digits, c)
    }
}

/// The letter that the assignment gives the digit `d`, if any.
pub open spec fn letter_for(letters: Seq<u8>, digits: Seq<u8>, d: u8) -> Option<u8>
    decreases letters.len(),
{
    if letters.len() == 0 {
        None
    } else if digits[letters.len() - 1] == d {
        Some(letters.last())
    } else {
        letter_for(letters.drop_last(), digits, d)
    }
}

/// The number that `w` spells under the assignment.
pub open spec fn word_value(w: Seq<u8>, letters: Seq<u8>, digits: Seq<u8>) -> int
    decreases w.len(),
{
    if w.len() == 0 {
        0
    } else {
        10 * word_value(w.drop_last(), letters, digits) + digit_for(letters, digits, w.last())
    }
}

/// The decimal digits of `n`, most significant first.
pub open spec fn decimal(n: nat) -> Seq<u8>
    decreases n,
{
    if n < 10 {
        seq![n as u8]
    } else {
        decimal(n / 10).push((n % 10) as u8)
    }
}

pub open spec fn pow10(n: nat) -> nat
    decreases n,
{
    if n == 0 {
        1
    } else {
        10 * pow10((n - 1) as nat)
    }
}

/// Position `i` of `word` fits digit `sum[i]`: the assigned letter of that
/// digit, or a letter the assignment does not use.
pub open spec fn fits_at(word: Seq<u8>, letters: Seq<u8>, digits: Seq<u8>, sum: Seq<u8>, i: int) -> bool {
    match letter_for(letters, digits, sum[i]) {
        Some(l) => word[i] == l,
        None => !letters.contains(word[i]),
    }
}

/// Positions `i` and `j` whose digits no letter has hold equal letters
/// exactly when their digits are equal.
pub open spec fn same_group(word: Seq<u8>, letters: Seq<u8>, digits: Seq<u8>, sum: Seq<u8>, i: int, j: int) -> bool {
    letter_for(letters, digits, sum[i]) is None && letter_for(letters, digits, sum[j]) is None ==> (
    sum[i] == sum[j] <==> word[i] == word[j])
}

/// `word` spells the digits `sum` consistently with the assignment.
pub open spec fn fits(word: Seq<u8>, letters: Seq<u8>, digits: Seq<u8>, sum: Seq<u8>) -> bool {
    &&& word.len() == sum.len()
    &&& forall|i: int| 0 <= i < sum.len() ==> #[trigger] fits_at(word, letters, digits, sum, i)
    &&& forall|i: int, j: int|
        0 <= i < sum.len() && 0 <= j < sum.len() ==> #[trigger] same_group(word, letters, digits, sum, i, j)
}

/// The constraints on a word that the sum of an assignment puts: its digits,
/// and the assignment itself.
pub struct Pattern {
    pub length: usize,
    pub sum: Vec<u8>,
    pub letters: Vec<u8>,
    pub digits: Vec<u8>,
}

impl Pattern {
    pub open spec fn wf(&self) -> bool {
        &&& self.letters@.len() == self.digits@.len()
        &&& self.length == self.sum@.len()
    }

    /// `word` fits the pattern.
    pub open spec fn holds(&self, word: Seq<u8>) -> bool {
        fits(word, self.letters@, self.digits@, self.sum@)
    }

    /// The pattern of the number `num` under the assignment
    /// `letters[i] -> digits[i]`.
    pub fn new(num: u64, letters: &Vec<u8>, digits: &Vec<u8>) -> (r: Self)
        requires
            letters@.len() == digits@.len(),
        ensures
            r.wf(),
            r.sum@ == decimal(num as nat),
            r.letters@ == letters@,
            r.digits@ == digits@,
    {
        let sum = decimal_of(num);
        Pattern { length: sum.len(), sum, letters: letters.clone(), digits: digits.clone() }
    }

    /// Whether `word` fits the pattern: fixed letters where the sum's digit
    /// has a letter, and elsewhere unused letters, equal exactly where the
    /// digits are equal.
    pub fn matches_pattern(&self, word: &str) -> (r: bool)
        requires
            self.wf(),
            word.is_ascii(),
        ensures
            r == self.holds(bytes_of(word@)),
    {
        let w = ascii_bytes(word);
        if w.len() != self.length {
            return false;
        }
        let ghost letters = self.letters@;
        let ghost digits = self.digits@;
        let ghost sum = self.sum@;
        let n = w.len();
        let mut i: usize = 0;
        while i < n
            invariant
                self.wf(),
                n == w@.len(),
                w@ == bytes_of(word@),
                n == sum.len(),
                letters == self.letters@,
                digits == self.digits@,
                sum == self.sum@,
                i <= n,
                forall|k: int| 0 <= k < i ==> #[trigger] fits_at(w@, letters, digits, sum, k),
                forall|k: int, j: int| 0 <= k < i && 0 <= j < i ==> #[trigger] same_group(w@, letters, digits, sum, k, j),
            decreases n - i,
        {
            let d = self.sum[i];
            let c = w[i];
            match letter_of(&self.letters, &self.digits, d) {
                Some(l) => {
                    if c != l {
                        assert(!fits_at(w@, letters, digits, sum, i as int));
                        assert(!self.holds(w@));
                        return false;
                    }
                },
                None => {
                    if contains_byte(&self.letters, c) {
                        assert(!fits_at(w@, letters, digits, sum, i as int));
                        assert(!self.holds(w@));
                        return false;
                    }
                },
            }
            let free_i = letter_of(&self.letters, &self.digits, d).is_none();
            let mut j: usize = 0;
            while j < i
                invariant
                    self.wf(),
                    n == w@.len(),
                    w@ == bytes_of(word@),
                    n == sum.len(),
                    letters == self.letters@,
                    digits == self.digits@,
                    sum == self.sum@,
                    i < n,
                    j <= i,
                    d == sum[i as int],
                    c == w@[i as int],
                    free_i == (letter_for(letters, digits, d) is None),
                    forall|k: int| 0 <= k < j ==> #[trigger] same_group(w@, letters, digits, sum, k, i as int),
                    forall|k: int| 0 <= k < j ==> #[trigger] same_group(w@, letters, digits, sum, i as int, k),
                decreases i - j,
            {
                if free_i && letter_of(&self.letters, &self.digits, self.sum[j]).is_none() {
                    if (self.sum[j] == d) != (w[j] == c) {
                        assert(!same_group(w@, letters, digits, sum, j as int, i as int));
                        assert(!self.holds(w@));
                        return false;
                    }
                }
                j += 1;
            }
            i += 1;
            assert forall|k: int, j2: int| 0 <= k < i && 0 <= j2 < i implies #[trigger] same_group(
                w@,
                letters,
                digits,
                sum,
                k,
                j2,
            ) by {
                if k == i - 1 && j2 == i - 1 {
                } else if k == i - 1 {
                    assert(same_group(w@, letters, digits, sum, i - 1, j2));
                } else if j2 == i - 1 {
                    assert(same_group(w@, letters, digits, sum, k, i - 1));
                }
            }
        }
        true
    }
}

fn contains_byte(v: &Vec<u8>, c: u8) -> (r: bool)
    ensures
        r == v@.contains(c),
{
    let mut i: usize = 0;
    while i < v.len()
        invariant
            i <= v@.len(),
            forall|k: int| 0 <= k < i ==> v@[k] != c,
        decreases v@.len() - i,
    {
        if v[i] == c {
            return true;
        }
        i += 1;
    }
    false
}

/// The letter of the digit `d` under the assignment.
fn letter_of(letters: &Vec<u8>, digits: &Vec<u8>, d: u8) -> (r: Option<u8>)
    requires
        letters@.len() == digits@.len(),
    ensures
        r == letter_for(letters@, digits@, d),
{
    let mut n = letters.len();
    assert(letters@.take(n as int) =~= letters@);
    while n > 0
        invariant
            n <= letters@.len(),
            letters@.len() == digits@.len(),
            letter_for(letters@, digits@, d) == letter_for(letters@.take(n as int), digits@, d),
        decreases n,
    {
        assert(letters@.take(n as int).drop_last() =~= letters@.take(n - 1));
        if digits[n - 1] == d {
            return Some(letters[n - 1]);
        }
        n -= 1;
    }
    None
}

/// The digit of the letter `c` under the assignment.
fn digit_of(letters: &Vec<u8>, digits: &Vec<u8>, c: u8) -> (r: u8)
    requires
        letters@.len() == digits@.len(),
    ensures
        r == digit_for(letters@, digits@, c),
{
    let mut n = letters.len();
    assert(letters@.take(n as int) =~= letters@);
    while n > 0
        invariant
            n <= letters@.len(),
            letters@.len() == digits@.len(),
            digit_for(letters@, digits@, c) == digit_for(letters@.take(n as int), digits@, c),
        decreases n,
    {
        assert(letters@.take(n as int).drop_last() =~= letters@.take(n - 1));
        if letters[n - 1] == c {
            return digits[n - 1];
        }
        n -= 1;
    }
    0
}

/// The decimal digits of `n`, most significant first.
pub fn decimal_of(n: u64) -> (r: Vec<u8>)
    ensures
        r@ == decimal(n as nat),
{
    let mut low: Vec<u8> = Vec::new();
    let mut x = n;
    while x >= 10
        invariant
            decimal(n as nat) == decimal(x as nat) + Seq::new(low@.len(), |i: int| low@[low@.len() - 1 - i]),
        decreases x,
    {
        let ghost before = low@;
        low.push((x % 10) as u8);
        assert(Seq::new(low@.len(), |i: int| low@[low@.len() - 1 - i]) =~= seq![(x % 10) as u8] + Seq::new(
            before.len(),
            |i: int| before[before.len() - 1 - i],
        ));
        assert(decimal(x as nat) == decimal((x / 10) as nat).push((x % 10) as u8));
        assert(decimal(x as nat) + Seq::new(before.len(), |i: int| before[before.len() - 1 - i]) =~= decimal(
            (x / 10) as nat,
        ) + Seq::new(low@.len(), |i: int| low@[low@.len() - 1 - i]));
        x = x / 10;
    }
    let ghost before = low@;
    low.push(x as u8);
    assert(Seq::new(low@.len(), |i: int| low@[low@.len() - 1 - i]) =~= seq![x as u8] + Seq::new(
        before.len(),
        |i: int| before[before.len() - 1 - i],
    ));
    let mut out: Vec<u8> = Vec::new();
    let mut k: usize = low.len();
    while k > 0
        invariant
            k <= low@.len(),
            out@ == Seq::new(low@.len(), |i: int| low@[low@.len() - 1 - i]).take(low@.len() - k),
        decreases k,
    {
        out.push(low[k - 1]);
        k -= 1;
        assert(out@ =~= Seq::new(low@.len(), |i: int| low@[low@.len() - 1 - i]).take(low@.len() - k));
    }
    assert(out@ =~= Seq::new(low@.len(), |i: int| low@[low@.len() - 1 - i]));
    out
}

proof fn lemma_pow10(n: nat)
    ensures
        pow10(n) >= 1,
        n <= 18 ==> pow10(n) <= 1_000_000_000_000_000_000,
{
    lemma_pow10_mono(n, 18);
    lemma_pow10_mono(n, n);
    reveal_with_fuel(pow10, 19);
}

proof fn lemma_pow10_mono(n: nat, m: nat)
    ensures
        pow10(m) >= 1,
        n <= m ==> pow10(n) <= pow10(m),
    decreases m,
{
    if m > 0 {
        lemma_pow10_mono(n, (m - 1) as nat);
    }
}

/// The number that `word` spells under the assignment.
pub fn word_to_int(word: &str, letters: &Vec<u8>, digits: &Vec<u8>) -> (r: u64)
    requires
        word.is_ascii(),
        word@.len() <= 18,
        letters@.len() == digits@.len(),
        forall|i: int| 0 <= i < digits@.len() ==> #[trigger] digits@[i] < 10,
    ensures
        r == word_value(bytes_of(word@), letters@, digits@),
        r < pow10(word@.len()),
{
    let w = ascii_bytes(word);
    let mut r: u64 = 0;
    let mut i: usize = 0;
    while i < w.len()
        invariant
            i <= w@.len(),
            w@.len() <= 18,
            letters@.len() == digits@.len(),
            forall|k: int| 0 <= k < digits@.len() ==> #[trigger] digits@[k] < 10,
            r == word_value(w@.take(i as int), letters@, digits@),
            r < pow10(i as nat),
        decreases w@.len() - i,
    {
        let d = digit_of(letters, digits, w[i]);
        proof {
            lemma_digit_bound(letters@, digits@, w@[i as int]);
            lemma_pow10((i + 1) as nat);
        }
        assert(w@.take(i + 1).drop_last() =~= w@.take(i as int));
        assert(r * 10 + d < pow10((i + 1) as nat)) by (nonlinear_arith)
            requires
                r < pow10(i as nat),
                d < 10,
                pow10((i + 1) as nat) == 10 * pow10(i as nat),
        ;
        r = r * 10 + d as u64;
        i += 1;
    }
    assert(w@.take(i as int) =~= w@);
    r
}

proof fn lemma_digit_bound(letters: Seq<u8>, digits: Seq<u8>, c: u8)
    requires
        letters.len() <= digits.len(),
        forall|i: int| 0 <= i < digits.len() ==> #[trigger] digits[i] < 10,
    ensures
        0 <= digit_for(letters, digits, c) < 10,
    decreases letters.len(),
{
    if letters.len() > 0 {
        lemma_digit_bound(letters.drop_last(), digits, c);
    }
}

/// The words of the corpus that may be the sum of `a` and `b`: as long as
/// the longer of them or one longer, and neither of them.
pub open spec fn candidates(ws: Seq<String>, a: Seq<char>, b: Seq<char>) -> Seq<String>
    decreases ws.len(),
{
    if ws.len() == 0 {
        Seq::empty()
    } else {
        let p = candidates(ws.drop_last(), a, b);
        let w = ws.last();
        let m = if a.len() >= b.len() {
            a.len()
        } else {
            b.len()
        };
        if m <= w@.len() <= m + 1 && w@ != a && w@ != b {
            p.push(w)
        } else {
            p
        }
    }
}

/// The words of `cs` that spell `sum` consistently with the assignment, in
/// order.
pub open spec fn matching(cs: Seq<String>, letters: Seq<u8>, digits: Seq<u8>, sum: Seq<u8>) -> Seq<String>
    decreases cs.len(),
{
    if cs.len() == 0 {
        Seq::empty()
    } else {
        let m = matching(cs.drop_last(), letters, digits, sum);
        if fits(bytes_of(cs.last()@), letters, digits, sum) {
            m.push(cs.last())
        } else {
            m
        }
    }
}

/// The words of `cs` that the sum of `a` and `b` spells under the assignment
/// `p`; none when `a` or `b` would start with zero.
pub open spec fn solutions_for(a: Seq<u8>, b: Seq<u8>, cs: Seq<String>, letters: Seq<u8>, p: Seq<u8>) -> Seq<String> {
    if digit_for(letters, p, a[0]) == 0 || digit_for(letters, p, b[0]) == 0 {
        Seq::empty()
    } else {
        matching(cs, letters, p, decimal((word_value(a, letters, p) + word_value(b, letters, p)) as nat))
    }
}

/// Every solution over the assignments `ps`, in order.
pub open spec fn all_solutions(a: Seq<u8>, b: Seq<u8>, cs: Seq<String>, letters: Seq<u8>, ps: Seq<Seq<u8>>) -> Seq<String>
    decreases ps.len(),
{
    if ps.len() == 0 {
        Seq::empty()
    } else {
        all_solutions(a, b, cs, letters, ps.drop_last()) + solutions_for(a, b, cs, letters, ps.last())
    }
}

/// The letters of `a` and `b`, each once.
pub open spec fn letters_of(a: Seq<char>, b: Seq<char>) -> Seq<u8> {
    distinct_bytes(bytes_of(a) + bytes_of(b))
}

/// The word that completes `a + b` over the assignments `ps`: the one
/// solution when there is exactly one, none otherwise (also when the letters
/// are more than ten or no word has a fitting length).
pub open spec fn cryptarithm_result(a: Seq<char>, b: Seq<char>, words: Seq<String>, ps: Seq<Seq<u8>>) -> Option<String> {
    let letters = letters_of(a, b);
    let cs = candidates(words, a, b);
    if letters.len() > 10 || cs.len() == 0 {
        None
    } else {
        let all = all_solutions(bytes_of(a), bytes_of(b), cs, letters, ps);
        if all.len() == 1 {
            Some(all[0])
        } else {
            None
        }
    }
}

/// Every ordered choice of `k` distinct digits appears in `ps`, once, and
/// nothing else does.
pub open spec fn all_assignments(ps: Seq<Seq<u8>>, k: int) -> bool {
    &&& forall|i: int| 0 <= i < ps.len() ==> #[trigger] is_assignment(ps[i], k)
    &&& forall|p: Seq<u8>| #[trigger] is_assignment(p, k) ==> ps.contains(p)
    &&& forall|i: int, j: int| 0 <= i < j < ps.len() ==> #[trigger] ps[i] != #[trigger] ps[j]
}

/// `k` distinct digits.
pub open spec fn is_assignment(p: Seq<u8>, k: int) -> bool {
    &&& p.len() == k
    &&& forall|i: int| 0 <= i < k ==> #[trigger] p[i] < 10
    &&& forall|i: int, j: int| 0 <= i < j < k ==> #[trigger] p[i] != #[trigger] p[j]
}

/// Relies on `Itertools::permutations` over `0..=9`: every ordered choice of
/// `k` distinct digits, each once (the input has no equal items).
#[verifier::external_body]
fn digit_permutations(k: usize) -> (r: Vec<Vec<u8>>)
    requires
        1 <= k <= 10,
    ensures
        all_assignments(r@.map_values(|p: Vec<u8>| p@), k as int),
{
    (0..=9u8).permutations(k).collect()
}

/// Relies on rayon's `par_iter`, `filter`, `cloned` and `collect`: the words
/// for which the pattern holds, each as often as it occurs.
#[verifier::external_body]
fn parallel_matches(pattern: &Pattern, cs: &Vec<String>) -> (r: Vec<String>)
    requires
        pattern.wf(),
        ascii_words(cs@),
    ensures
        r@.to_multiset() == matching(cs@, pattern.letters@, pattern.digits@, pattern.sum@).to_multiset(),
{
    cs.par_iter().filter(|w| pattern.matches_pattern(w.as_str())).cloned().collect()
}

proof fn lemma_same_multiset(s1: Seq<String>, s2: Seq<String>)
    requires
        s1.to_multiset() == s2.to_multiset(),
    ensures
        s1.len() == s2.len(),
        s2.len() == 1 ==> s1[0] == s2[0],
{
    broadcast use vstd::seq_lib::group_to_multiset_ensures;

    s1.to_multiset_ensures();
    s2.to_multiset_ensures();
    if s2.len() == 1 {
        assert(s1.contains(s1[0]));
        assert(s2.to_multiset().count(s1[0]) > 0);
        assert(s2.contains(s1[0]));
    }
}

proof fn lemma_solutions_grow(a: Seq<u8>, b: Seq<u8>, cs: Seq<String>, letters: Seq<u8>, ps: Seq<Seq<u8>>, t: int)
    requires
        0 <= t <= ps.len(),
    ensures
        all_solutions(a, b, cs, letters, ps.take(t)).len() <= all_solutions(a, b, cs, letters, ps).len(),
    decreases ps.len() - t,
{
    if t < ps.len() {
        lemma_solutions_grow(a, b, cs, letters, ps, t + 1);
        assert(ps.take(t + 1).drop_last() =~= ps.take(t));
    } else {
        assert(ps.take(t) =~= ps);
    }
}

/// The words of `words` that may be the sum of `a` and `b`.
fn candidates_of(words: &Vec<String>, a: &str, b: &str) -> (r: Vec<String>)
    requires
        ascii_words(words@),
    ensures
        r@ == candidates(words@, a@, b@),
        ascii_words(r@),
{
    let la = a.unicode_len();
    let lb = b.unicode_len();
    let m = if la >= lb { la } else { lb };
    let mut out: Vec<String> = Vec::new();
    let mut i: usize = 0;
    while i < words.len()
        invariant
            i <= words@.len(),
            la == a@.len(),
            lb == b@.len(),
            m == if la >= lb { la } else { lb },
            ascii_words(words@),
            out@ == candidates(words@.take(i as int), a@, b@),
            ascii_words(out@),
        decreases words@.len() - i,
    {
        let w = &words[i];
        assert(words@.take(i + 1).drop_last() =~= words@.take(i as int));
        let lw = w.as_str().unicode_len();
        if m <= lw && lw - m <= 1 && !str_eq(w.as_str(), a) && !str_eq(w.as_str(), b) {
            out.push(w.clone());
        }
        i += 1;
    }
    assert(words@.take(i as int) =~= words@);
    out
}

fn str_eq(x: &str, y: &str) -> (r: bool)
    ensures
        r == (x@ == y@),
{
    let n = x.unicode_len();
    if n != y.unicode_len() {
        return false;
    }
    let mut i: usize = 0;
    while i < n
        invariant
            n == x@.len(),
            n == y@.len(),
            i <= n,
            forall|k: int| 0 <= k < i ==> x@[k] == y@[k],
        decreases n - i,
    {
        if x.get_char(i) != y.get_char(i) {
            return false;
        }
        i += 1;
    }
    assert(x@ =~= y@);
    true
}

/// The distinct bytes of `s`, in order of first occurrence.
fn distinct_of(s: &Vec<u8>) -> (r: Vec<u8>)
    ensures
        r@ == distinct_bytes(s@),
{
    let mut out: Vec<u8> = Vec::new();
    let mut i: usize = 0;
    while i < s.len()
        invariant
            i <= s@.len(),
            out@ == distinct_bytes(s@.take(i as int)),
        decreases s@.len() - i,
    {
        assert(s@.take(i + 1).drop_last() =~= s@.take(i as int));
        if !contains_byte(&out, s[i]) {
            out.push(s[i]);
        }
        i += 1;
    }
    assert(s@.take(i as int) =~= s@);
    out
}

/// The word that completes `a + b` over the given digit assignments (see
/// `cryptarithm_result`).
pub fn create_cryptarithm_with(a: &str, b: &str, words: &Vec<String>, ps: &Vec<Vec<u8>>) -> (r: Option<String>)
    requires
        a.is_ascii(),
        b.is_ascii(),
        1 <= a@.len() <= 18,
        1 <= b@.len() <= 18,
        ascii_words(words@),
        forall|i: int| 0 <= i < ps@.len() ==> (#[trigger] ps@[i])@.len() == letters_of(a@, b@).len(),
        forall|i: int, j: int| 0 <= i < ps@.len() && 0 <= j < ps@[i]@.len() ==> #[trigger] ps@[i]@[j] < 10,
    ensures
        r == cryptarithm_result(a@, b@, words@, ps@.map_values(|p: Vec<u8>| p@)),
{
    let ab = ascii_bytes(a);
    let bb = ascii_bytes(b);
    let mut both = ab.clone();
    let mut k: usize = 0;
    while k < bb.len()
        invariant
            k <= bb@.len(),
            both@ == ab@ + bb@.take(k as int),
        decreases bb@.len() - k,
    {
        both.push(bb[k]);
        k += 1;
        assert(both@ =~= ab@ + bb@.take(k as int));
    }
    assert(bb@.take(k as int) =~= bb@);
    let letters = distinct_of(&both);
    let cs = candidates_of(words, a, b);
    if letters.len() > 10 || cs.len() == 0 {
        return None;
    }
    let ghost pv = ps@.map_values(|p: Vec<u8>| p@);
    let ghost av = ab@;
    let ghost bv = bb@;
    let mut count: usize = 0;
    let mut found: Option<String> = None;
    let mut t: usize = 0;
    while t < ps.len()
        invariant
            t <= ps@.len(),
            pv == ps@.map_values(|p: Vec<u8>| p@),
            av == bytes_of(a@),
            bv == bytes_of(b@),
            a.is_ascii(),
            b.is_ascii(),
            a@.len() <= 18,
            b@.len() <= 18,
            av.len() <= 18,
            bv.len() <= 18,
            av.len() >= 1,
            bv.len() >= 1,
            ab@ == av,
            bb@ == bv,
            letters@ == letters_of(a@, b@),
            cs@ == candidates(words@, a@, b@),
            ascii_words(cs@),
            forall|i: int| 0 <= i < ps@.len() ==> (#[trigger] ps@[i])@.len() == letters@.len(),
            forall|i: int, j: int| 0 <= i < ps@.len() && 0 <= j < ps@[i]@.len() ==> #[trigger] ps@[i]@[j] < 10,
            count <= 1,
            count == all_solutions(av, bv, cs@, letters@, pv.take(t as int)).len(),
            count == 1 ==> found == Some(all_solutions(av, bv, cs@, letters@, pv.take(t as int))[0]),
        decreases ps@.len() - t,
    {
        let p = &ps[t];
        let ghost prev = all_solutions(av, bv, cs@, letters@, pv.take(t as int));
        assert(pv.take(t + 1).drop_last() =~= pv.take(t as int));
        assert(pv[t as int] == p@);
        let da = digit_of(&letters, p, ab[0]);
        let db = digit_of(&letters, p, bb[0]);
        if da != 0 && db != 0 {
            let va = word_to_int(a, &letters, p);
            let vb = word_to_int(b, &letters, p);
            proof {
                lemma_pow10(av.len());
                lemma_pow10(bv.len());
            }
            let pattern = Pattern::new(va + vb, &letters, p);
            let ms = parallel_matches(&pattern, &cs);
            let ghost sols = solutions_for(av, bv, cs@, letters@, p@);
            proof {
                lemma_same_multiset(ms@, sols);
            }
            if ms.len() > 1 - count {
                proof {
                    lemma_solutions_grow(av, bv, cs@, letters@, pv, t + 1);
                }
                return None;
            }
            if ms.len() == 1 {
                found = Some(ms[0].clone());
                assert((prev + sols)[0] == sols[0]);
            } else {
                assert(prev + sols =~= prev);
            }
            count = count + ms.len();
        } else {
            assert(solutions_for(av, bv, cs@, letters@, p@) =~= Seq::<String>::empty());
            assert(prev + solutions_for(av, bv, cs@, letters@, p@) =~= prev);
        }
        t += 1;
    }
    assert(pv.take(t as int) =~= pv);
    if count == 1 {
        found
    } else {
        None
    }
}

/// The word that completes `a + b` among `batch`, over every assignment of
/// distinct digits to the letters (the order in which the assignments are
/// tried does not matter, see `lemma_results_agree`).
pub open spec fn completion(a: Seq<char>, b: Seq<char>, batch: Seq<String>) -> Option<String> {
    cryptarithm_result(
        a,
        b,
        batch,
        choose|ps: Seq<Seq<u8>>| all_assignments(ps, letters_of(a, b).len() as int),
    )
}

proof fn lemma_assignments_multiset(ps1: Seq<Seq<u8>>, ps2: Seq<Seq<u8>>, k: int)
    requires
        all_assignments(ps1, k),
        all_assignments(ps2, k),
    ensures
        ps1.to_multiset() == ps2.to_multiset(),
{
    broadcast use vstd::seq_lib::group_to_multiset_ensures;

    assert(ps1.no_duplicates()) by {
        assert forall|i: int, j: int| 0 <= i < ps1.len() && 0 <= j < ps1.len() && i != j implies ps1[i]
            != ps1[j] by {
            if i < j {
                assert(ps1[i] != ps1[j]);
            } else {
                assert(ps1[j] != ps1[i]);
            }
        }
    }
    assert(ps2.no_duplicates()) by {
        assert forall|i: int, j: int| 0 <= i < ps2.len() && 0 <= j < ps2.len() && i != j implies ps2[i]
            != ps2[j] by {
            if i < j {
                assert(ps2[i] != ps2[j]);
            } else {
                assert(ps2[j] != ps2[i]);
            }
        }
    }
    ps1.lemma_multiset_has_no_duplicates();
    ps2.lemma_multiset_has_no_duplicates();
    ps1.to_multiset_ensures();
    ps2.to_multiset_ensures();
    assert forall|x: Seq<u8>| ps1.to_multiset().count(x) == ps2.to_multiset().count(x) by {
        if ps1.contains(x) {
            let i = choose|i: int| 0 <= i < ps1.len() && ps1[i] == x;
            assert(is_assignment(ps1[i], k));
            assert(ps2.contains(x));
        } else if ps2.contains(x) {
            let i = choose|i: int| 0 <= i < ps2.len() && ps2[i] == x;
            assert(is_assignment(ps2[i], k));
            assert(ps1.contains(x));
        }
    }
    assert(ps1.to_multiset() =~= ps2.to_multiset());
}

proof fn lemma_solutions_remove(a: Seq<u8>, b: Seq<u8>, cs: Seq<String>, letters: Seq<u8>, s: Seq<Seq<u8>>, i: int)
    requires
        0 <= i < s.len(),
    ensures
        all_solutions(a, b, cs, letters, s).to_multiset() == all_solutions(a, b, cs, letters, s.remove(i)).to_multiset().add(
            solutions_for(a, b, cs, letters, s[i]).to_multiset(),
        ),
    decreases s.len(),
{
    broadcast use vstd::seq_lib::group_to_multiset_ensures;

    let sol = |q: Seq<u8>| solutions_for(a, b, cs, letters, q);
    if i == s.len() - 1 {
        assert(s.remove(i) =~= s.drop_last());
        vstd::seq_lib::lemma_multiset_commutative(
            all_solutions(a, b, cs, letters, s.drop_last()),
            solutions_for(a, b, cs, letters, s.last()),
        );
    } else {
        let d = s.drop_last();
        lemma_solutions_remove(a, b, cs, letters, d, i);
        assert(s.remove(i).drop_last() =~= d.remove(i));
        assert(s.remove(i).last() == s.last());
        vstd::seq_lib::lemma_multiset_commutative(
            all_solutions(a, b, cs, letters, d),
            solutions_for(a, b, cs, letters, s.last()),
        );
        vstd::seq_lib::lemma_multiset_commutative(
            all_solutions(a, b, cs, letters, d.remove(i)),
            solutions_for(a, b, cs, letters, s.last()),
        );
        assert(all_solutions(a, b, cs, letters, s).to_multiset() =~= all_solutions(a, b, cs, letters, s.remove(i)).to_multiset().add(
            solutions_for(a, b, cs, letters, s[i]).to_multiset(),
        ));
    }
}

proof fn lemma_solutions_multiset(a: Seq<u8>, b: Seq<u8>, cs: Seq<String>, letters: Seq<u8>, ps1: Seq<Seq<u8>>, ps2: Seq<Seq<u8>>)
    requires
        ps1.to_multiset() == ps2.to_multiset(),
    ensures
        all_solutions(a, b, cs, letters, ps1).to_multiset() == all_solutions(a, b, cs, letters, ps2).to_multiset(),
    decreases ps1.len(),
{
    broadcast use vstd::seq_lib::group_to_multiset_ensures;

    ps1.to_multiset_ensures();
    ps2.to_multiset_ensures();
    if ps1.len() == 0 {
        assert(ps2.len() == 0);
        assert(ps2 =~= ps1);
    } else {
        let p = ps1.last();
        let d = ps1.drop_last();
        assert(d.push(p) =~= ps1);
        d.to_multiset_ensures();
        assert(ps1.contains(p));
        assert(ps2.to_multiset().count(p) > 0);
        assert(ps2.contains(p));
        let i = choose|i: int| 0 <= i < ps2.len() && ps2[i] == p;
        let r = ps2.remove(i);
        assert(r.to_multiset() =~= d.to_multiset());
        lemma_solutions_multiset(a, b, cs, letters, d, r);
        lemma_solutions_remove(a, b, cs, letters, ps2, i);
        vstd::seq_lib::lemma_multiset_commutative(
            all_solutions(a, b, cs, letters, d),
            solutions_for(a, b, cs, letters, p),
        );
    }
}

/// Any two complete lists of digit assignments give the same result.
pub proof fn lemma_results_agree(a: Seq<char>, b: Seq<char>, words: Seq<String>, ps1: Seq<Seq<u8>>, ps2: Seq<Seq<u8>>, k: int)
    requires
        k == letters_of(a, b).len(),
        all_assignments(ps1, k),
        all_assignments(ps2, k),
    ensures
        cryptarithm_result(a, b, words, ps1) == cryptarithm_result(a, b, words, ps2),
{
    let letters = letters_of(a, b);
    let cs = candidates(words, a, b);
    lemma_assignments_multiset(ps1, ps2, k);
    lemma_solutions_multiset(bytes_of(a), bytes_of(b), cs, letters, ps1, ps2);
    lemma_same_multiset(
        all_solutions(bytes_of(a), bytes_of(b), cs, letters, ps1),
        all_solutions(bytes_of(a), bytes_of(b), cs, letters, ps2),
    );
}

/// The word that completes `a + b` into a cryptarithm with a unique solution
/// among `words`, if there is one: every assignment of distinct digits to the
/// letters is tried.
pub fn create_cryptarithm(a: &str, b: &str, words: &Vec<String>) -> (r: Option<String>)
    requires
        a.is_ascii(),
        b.is_ascii(),
        1 <= a@.len() <= 18,
        1 <= b@.len() <= 18,
        ascii_words(words@),
    ensures
        r == completion(a@, b@, words@),
{
    let ab = ascii_bytes(a);
    let bb = ascii_bytes(b);
    let mut both = ab.clone();
    let mut k: usize = 0;
    while k < bb.len()
        invariant
            k <= bb@.len(),
            both@ == ab@ + bb@.take(k as int),
        decreases bb@.len() - k,
    {
        both.push(bb[k]);
        k += 1;
        assert(both@ =~= ab@ + bb@.take(k as int));
    }
    assert(bb@.take(k as int) =~= bb@);
    let letters = distinct_of(&both);
    if letters.len() > 10 {
        return None;
    }
    proof {
        lemma_distinct_nonempty(both@);
    }
    let ps = digit_permutations(letters.len());
    let ghost pv = ps@.map_values(|p: Vec<u8>| p@);
    assert forall|i: int| 0 <= i < ps@.len() implies (#[trigger] ps@[i])@.len() == letters_of(a@, b@).len() by {
        assert(is_assignment(pv[i], letters@.len() as int));
    }
    assert forall|i: int, j: int| 0 <= i < ps@.len() && 0 <= j < ps@[i]@.len() implies #[trigger] ps@[i]@[j]
        < 10 by {
        assert(is_assignment(pv[i], letters@.len() as int));
    }
    let r = create_cryptarithm_with(a, b, words, &ps);
    proof {
        let k = letters_of(a@, b@).len() as int;
        let chosen = choose|q: Seq<Seq<u8>>| all_assignments(q, k);
        lemma_results_agree(a@, b@, words@, pv, chosen, k);
    }
    r
}

proof fn lemma_candidates_from(ws: Seq<String>, a: Seq<char>, b: Seq<char>)
    ensures
        forall|k: int| 0 <= k < candidates(ws, a, b).len() ==> ws.contains(#[trigger] candidates(ws, a, b)[k]),
    decreases ws.len(),
{
    if ws.len() > 0 {
        lemma_candidates_from(ws.drop_last(), a, b);
        let p = candidates(ws.drop_last(), a, b);
        assert forall|k: int| 0 <= k < candidates(ws, a, b).len() implies ws.contains(
            #[trigger] candidates(ws, a, b)[k],
        ) by {
            if k < p.len() {
                assert(candidates(ws, a, b)[k] == p[k]);
                let i = choose|i: int| 0 <= i < ws.drop_last().len() && ws.drop_last()[i] == p[k];
                assert(ws[i] == p[k]);
            } else {
                assert(ws[ws.len() - 1] == ws.last());
            }
        }
    }
}

proof fn lemma_matching_from(cs: Seq<String>, letters: Seq<u8>, digits: Seq<u8>, sum: Seq<u8>)
    ensures
        forall|k: int|
            0 <= k < matching(cs, letters, digits, sum).len() ==> cs.contains(
                #[trigger] matching(cs, letters, digits, sum)[k],
            ),
    decreases cs.len(),
{
    if cs.len() > 0 {
        lemma_matching_from(cs.drop_last(), letters, digits, sum);
        let p = matching(cs.drop_last(), letters, digits, sum);
        assert forall|k: int| 0 <= k < matching(cs, letters, digits, sum).len() implies cs.contains(
            #[trigger] matching(cs, letters, digits, sum)[k],
        ) by {
            if k < p.len() {
                assert(matching(cs, letters, digits, sum)[k] == p[k]);
                let i = choose|i: int| 0 <= i < cs.drop_last().len() && cs.drop_last()[i] == p[k];
                assert(cs[i] == p[k]);
            } else {
                assert(cs[cs.len() - 1] == cs.last());
            }
        }
    }
}

proof fn lemma_solutions_from(a: Seq<u8>, b: Seq<u8>, cs: Seq<String>, letters: Seq<u8>, ps: Seq<Seq<u8>>)
    ensures
        forall|k: int|
            0 <= k < all_solutions(a, b, cs, letters, ps).len() ==> cs.contains(
                #[trigger] all_solutions(a, b, cs, letters, ps)[k],
            ),
    decreases ps.len(),
{
    if ps.len() > 0 {
        lemma_solutions_from(a, b, cs, letters, ps.drop_last());
        let p = ps.last();
        let prev = all_solutions(a, b, cs, letters, ps.drop_last());
        let sols = solutions_for(a, b, cs, letters, p);
        lemma_matching_from(
            cs,
            letters,
            p,
            decimal((word_value(a, letters, p) + word_value(b, letters, p)) as nat),
        );
        assert forall|k: int| 0 <= k < all_solutions(a, b, cs, letters, ps).len() implies cs.contains(
            #[trigger] all_solutions(a, b, cs, letters, ps)[k],
        ) by {
            if k < prev.len() {
                assert(all_solutions(a, b, cs, letters, ps)[k] == prev[k]);
            } else {
                assert(all_solutions(a, b, cs, letters, ps)[k] == sols[k - prev.len()]);
            }
        }
    }
}

/// A completing word is a word of the batch.
pub proof fn lemma_result_is_candidate(a: Seq<char>, b: Seq<char>, batch: Seq<String>, ps: Seq<Seq<u8>>)
    requires
        cryptarithm_result(a, b, batch, ps) is Some,
    ensures
        batch.contains(cryptarithm_result(a, b, batch, ps)->0),
{
    let cs = candidates(batch, a, b);
    lemma_candidates_from(batch, a, b);
    lemma_solutions_from(bytes_of(a), bytes_of(b), cs, letters_of(a, b), ps);
    let all = all_solutions(bytes_of(a), bytes_of(b), cs, letters_of(a, b), ps);
    assert(cs.contains(all[0]));
    let i = choose|i: int| 0 <= i < cs.len() && cs[i] == all[0];
    assert(batch.contains(cs[i]));
}

/// `w` completes `a + b` uniquely among `batch`.
pub open spec fn solves(a: Seq<char>, b: Seq<char>, batch: Seq<String>, w: String) -> bool {
    completion(a, b, batch) == Some(w)
}

/// The text `a + b = w`.
pub open spec fn relation_text(a: Seq<char>, b: Seq<char>, w: Seq<char>) -> Seq<char> {
    chars_of(bytes_of(a) + seq![32u8, 43u8, 32u8] + bytes_of(b) + seq![32u8, 61u8, 32u8] + bytes_of(w))
}

fn extend(out: &mut Vec<u8>, s: &Vec<u8>)
    ensures
        final(out)@ == old(out)@ + s@,
{
    let ghost start = out@;
    let mut i: usize = 0;
    while i < s.len()
        invariant
            i <= s@.len(),
            out@ == start + s@.take(i as int),
        decreases s@.len() - i,
    {
        out.push(s[i]);
        i += 1;
        assert(out@ =~= start + s@.take(i as int));
    }
    assert(s@.take(i as int) =~= s@);
}

/// Writes `a + b = w`.
fn relation(a: &str, b: &str, w: &str) -> (r: String)
    requires
        a.is_ascii(),
        b.is_ascii(),
        w.is_ascii(),
    ensures
        r@ == relation_text(a@, b@, w@),
{
    let mut out = ascii_bytes(a);
    extend(&mut out, &vec![32u8, 43, 32]);
    extend(&mut out, &ascii_bytes(b));
    extend(&mut out, &vec![32u8, 61, 32]);
    extend(&mut out, &ascii_bytes(w));
    assert(out@ =~= bytes_of(a@) + seq![32u8, 43u8, 32u8] + bytes_of(b@) + seq![32u8, 61u8, 32u8] + bytes_of(w@));
    ascii_string(out)
}

/// `batch` is at most ten words of `words`, drawn at distinct positions.
pub open spec fn drawn_from(batch: Seq<String>, words: Seq<String>) -> bool {
    &&& batch.len() <= 10
    &&& exists|idx: Seq<int>|
        idx.len() == batch.len() && (forall|k: int|
            0 <= k < idx.len() ==> 0 <= #[trigger] idx[k] < words.len() && batch[k] == words[idx[k]])
            && (forall|k: int, l: int| 0 <= k < l < idx.len() ==> #[trigger] idx[k] != #[trigger] idx[l])
}

/// The pair at positions `i` and `j` of the batch, if both words have one to
/// eighteen letters, and its completing word.
pub open spec fn pair_completion(batch: Seq<String>, i: int, j: int) -> Option<String> {
    if 1 <= batch[i]@.len() <= 18 && 1 <= batch[j]@.len() <= 18 {
        completion(batch[i]@, batch[j]@, batch)
    } else {
        None
    }
}

/// The relation of the first pair `i < j` of the batch, from `(i, j)` on in
/// order, that a word completes.
pub open spec fn search_from(batch: Seq<String>, i: int, j: int) -> Option<Seq<char>>
    decreases batch.len() - i, batch.len() - j,
{
    if i < 0 || j < 0 || i >= batch.len() {
        None
    } else if j >= batch.len() {
        search_from(batch, i + 1, i + 2)
    } else {
        match pair_completion(batch, i, j) {
            Some(w) => Some(relation_text(batch[i]@, batch[j]@, w@)),
            None => search_from(batch, i, j + 1),
        }
    }
}

/// The relation of the first pair of the batch that a word completes.
pub open spec fn batch_result(batch: Seq<String>) -> Option<Seq<char>> {
    search_from(batch, 0, 1)
}

/// What the search finds comes from a completed pair `i < j` at or after
/// `(i, j)`.
pub proof fn lemma_search_witness(batch: Seq<String>, i: int, j: int)
    requires
        0 <= i < j,
        search_from(batch, i, j) is Some,
    ensures
        exists|i2: int, j2: int, w: String|
            0 <= i2 < j2 < batch.len() && pair_completion(batch, i2, j2) == Some(w)
                && search_from(batch, i, j) == Some(#[trigger] relation_text(batch[i2]@, batch[j2]@, w@)),
    decreases batch.len() - i, batch.len() - j,
{
    if j >= batch.len() {
        lemma_search_witness(batch, i + 1, i + 2);
    } else {
        match pair_completion(batch, i, j) {
            Some(w) => {
                assert(pair_completion(batch, i, j) == Some(w));
            },
            None => {
                lemma_search_witness(batch, i, j + 1);
            },
        }
    }
}

/// A completed pair at or after `(i, j)` is found.
pub proof fn lemma_search_finds(batch: Seq<String>, i: int, j: int, i0: int, j0: int)
    requires
        0 <= i < j,
        0 <= i0 < j0 < batch.len(),
        i < i0 || (i == i0 && j <= j0),
        pair_completion(batch, i0, j0) is Some,
    ensures
        search_from(batch, i, j) is Some,
    decreases batch.len() - i, batch.len() - j,
{
    if j >= batch.len() {
        lemma_search_finds(batch, i + 1, i + 2, i0, j0);
    } else if pair_completion(batch, i, j) is None {
        lemma_search_finds(batch, i, j + 1, i0, j0);
    }
}

/// Tries the pairs `i < j` of the batch in order and writes the relation of
/// the first pair that a word of the batch completes.
pub fn search_batch(batch: &Vec<String>) -> (r: Option<String>)
    requires
        ascii_words(batch@),
    ensures
        r is None <==> batch_result(batch@) is None,
        r matches Some(t) ==> batch_result(batch@) == Some(t@) && t.is_ascii(),
{
    let n = batch.len();
    let mut i: usize = 0;
    while i < n
        invariant
            n == batch@.len(),
            i <= n,
            ascii_words(batch@),
            batch_result(batch@) == search_from(batch@, i as int, i + 1),
        decreases n - i,
    {
        let mut j: usize = i + 1;
        while j < n
            invariant
                n == batch@.len(),
                i < n,
                i < j <= n,
                ascii_words(batch@),
                batch_result(batch@) == search_from(batch@, i as int, j as int),
            decreases n - j,
        {
            let a = &batch[i];
            let b = &batch[j];
            assert(batch@[i as int] == *a && batch@[j as int] == *b);
            let la = a.as_str().unicode_len();
            let lb = b.as_str().unicode_len();
            if 1 <= la && la <= 18 && 1 <= lb && lb <= 18 {
                match create_cryptarithm(a.as_str(), b.as_str(), batch) {
                    Some(c) => {
                        proof {
                            lemma_completion_in_batch(a@, b@, batch@);
                        }
                        assert(batch@.contains(c));
                        let text = relation(a.as_str(), b.as_str(), c.as_str());
                        return Some(text);
                    },
                    None => {},
                }
            }
            j += 1;
        }
        i += 1;
    }
    None
}

proof fn lemma_completion_in_batch(a: Seq<char>, b: Seq<char>, batch: Seq<String>)
    requires
        completion(a, b, batch) is Some,
    ensures
        batch.contains(completion(a, b, batch)->0),
{
    let ps = choose|ps: Seq<Seq<u8>>| all_assignments(ps, letters_of(a, b).len() as int);
    lemma_result_is_candidate(a, b, batch, ps);
}

/// Searches batches of at most ten corpus words for a pair `a`, `b` whose sum
/// is uniquely completed by a third word of the batch, and writes the
/// relation `a + b = c`. A corpus of at most ten words is one batch in its
/// own order; from a larger one each batch is drawn at random. Gives up after
/// `max_batches` batches.
pub fn cryptarithm(words: &Vec<String>, rng: &mut ThreadRng, max_batches: usize) -> (r: CipherResult<Cipher>)
    requires
        ascii_words(words@),
    ensures
        r is Err ==> r->Err_0.kind == ErrorKind::ExhaustedSearch,
        max_batches == 0 ==> r is Err,
        max_batches >= 1 && words@.len() <= 10 && (exists|i: int, j: int, w: String|
            0 <= i < j < words@.len() && 1 <= words@[i]@.len() <= 18 && 1 <= words@[j]@.len() <= 18
                && #[trigger] solves(words@[i]@, words@[j]@, words@, w)) ==> r is Ok,
        r matches Ok(c) ==> c.ciphertext.is_ascii() && c.key is None,
        r matches Ok(c) ==> exists|batch: Seq<String>, i: int, j: int, w: String|
            drawn_from(batch, words@) && 0 <= i < j < batch.len() && #[trigger] solves(batch[i]@, batch[j]@, batch, w)
                && c.ciphertext@ == relation_text(batch[i]@, batch[j]@, w@),
{
    let n = words.len();
    let mut batch_no: usize = 0;
    while batch_no < max_batches
        invariant
            n == words@.len(),
            ascii_words(words@),
            batch_no > 0 && n <= 10 ==> !(exists|i: int, j: int, w: String|
                0 <= i < j < words@.len() && 1 <= words@[i]@.len() <= 18 && 1 <= words@[j]@.len() <= 18
                    && #[trigger] solves(words@[i]@, words@[j]@, words@, w)),
        decreases max_batches - batch_no,
    {
        let idx: Vec<usize> = if n <= 10 {
            let mut v: Vec<usize> = Vec::new();
            while v.len() < n
                invariant
                    v@.len() <= n,
                    v@ == Seq::new(v@.len(), |k: int| k as usize),
                decreases n - v@.len(),
            {
                v.push(v.len());
                assert(v@ =~= Seq::new(v@.len(), |k: int| k as usize));
            }
            v
        } else {
            sample_indices(rng, n, 10)
        };
        assert(n <= 10 ==> idx@ =~= Seq::new(n as nat, |k: int| k as usize));
        assert(forall|k: int| 0 <= k < idx@.len() ==> #[trigger] idx@[k] < n);
        assert(forall|k: int, l: int| 0 <= k < l < idx@.len() ==> #[trigger] idx@[k] != #[trigger] idx@[l]);
        let mut batch: Vec<String> = Vec::new();
        while batch.len() < idx.len()
            invariant
                batch@.len() <= idx@.len(),
                idx@.len() <= 10,
                n == words@.len(),
                forall|k: int| 0 <= k < idx@.len() ==> #[trigger] idx@[k] < n,
                forall|k: int| 0 <= k < batch@.len() ==> batch@[k] == words@[#[trigger] idx@[k] as int],
                n <= 10 ==> idx@ == Seq::new(n as nat, |k: int| k as usize),
                ascii_words(words@),
                ascii_words(batch@),
            decreases idx@.len() - batch@.len(),
        {
            let q = idx[batch.len()];
            let w = words[q].clone();
            assert(words@[q as int] == w);
            batch.push(w);
        }
        let ghost iv = idx@.map_values(|x: usize| x as int);
        assert(drawn_from(batch@, words@)) by {
            assert(iv.len() == batch@.len());
            assert forall|k: int, l: int| 0 <= k < l < iv.len() implies #[trigger] iv[k] != #[trigger] iv[l] by {
                assert(idx@[k] != idx@[l]);
            }
        }
        match search_batch(&batch) {
            Some(text) => {
                proof {
                    lemma_search_witness(batch@, 0, 1);
                    let (i2, j2, w) = choose|i2: int, j2: int, w: String|
                        0 <= i2 < j2 < batch@.len() && pair_completion(batch@, i2, j2) == Some(w)
                            && search_from(batch@, 0, 1) == Some(
                            #[trigger] relation_text(batch@[i2]@, batch@[j2]@, w@),
                        );
                    assert(solves(batch@[i2]@, batch@[j2]@, batch@, w));
                    assert(text@ == relation_text(batch@[i2]@, batch@[j2]@, w@));
                }
                return Ok(Cipher::new(text, None));
            },
            None => {
                proof {
                    if n <= 10 {
                        assert(batch@.len() == words@.len());
                        assert forall|k: int| 0 <= k < batch@.len() implies batch@[k] == words@[k] by {
                            assert(idx@[k] == k as usize);
                        }
                        assert(batch@ =~= words@);
                        if exists|i: int, j: int, w: String|
                            0 <= i < j < words@.len() && 1 <= words@[i]@.len() <= 18 && 1 <= words@[j]@.len()
                                <= 18 && #[trigger] solves(words@[i]@, words@[j]@, words@, w) {
                            let (i0, j0, w0) = choose|i: int, j: int, w: String|
                                0 <= i < j < words@.len() && 1 <= words@[i]@.len() <= 18 && 1 <= words@[j]@.len()
                                    <= 18 && #[trigger] solves(words@[i]@, words@[j]@, words@, w);
                            assert(pair_completion(batch@, i0, j0) == Some(w0));
                            lemma_search_finds(batch@, 0, 1, i0, j0);
                        }
                    }
                }
            },
        }
        batch_no += 1;
    }
    Err(CipherError::new(ErrorKind::ExhaustedSearch, "No cryptarithm found".to_owned()))
}

} // verus!
