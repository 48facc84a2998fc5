//! Rotating an alphabet map until no letter maps to itself, and the proof
//! that 26 rotations always suffice.
use vstd::prelude::*;
use crate::ciphers::substitution::{is_alphabet_map, is_bijection, no_fixed_point};

verus! {

/// The map rotated right by `k` places: entry `i` moves to `i + k`.
pub open spec fn rotated_right(m: Seq<u8>, k: int) -> Seq<u8> {
    Seq::new(26, |i: int| m[(i - k) % 26])
}

/// The map rotated left by `k` places: entry `i` moves to `i - k`.
pub open spec fn rotated_left(m: Seq<u8>, k: int) -> Seq<u8> {
    Seq::new(26, |i: int| m[(i + k) % 26])
}

/// The least number of right rotations, from `k` on, that leaves no fixed
/// point; 26 when there is none.
pub open spec fn clear_right_from(m: Seq<u8>, k: int) -> int
    decreases 26 - k,
{
    if k >= 26 {
        26
    } else if no_fixed_point(rotated_right(m, k)) {
        k
    } else {
        clear_right_from(m, k + 1)
    }
}

/// The least number of left rotations, from `k` on, that leaves no fixed
/// point; 26 when there is none.
pub open spec fn clear_left_from(m: Seq<u8>, k: int) -> int
    decreases 26 - k,
{
    if k >= 26 {
        26
    } else if no_fixed_point(rotated_left(m, k)) {
        k
    } else {
        clear_left_from(m, k + 1)
    }
}

/// The number of `j < n` with `f(j) == k`.
pub open spec fn count_of(f: spec_fn(int) -> int, k: int, n: int) -> int
    decreases n,
{
    if n <= 0 {
        0
    } else {
        count_of(f, k, n - 1) + if f(n - 1) == k {
            1int
        } else {
            0int
        }
    }
}

/// The sum of `f(j)` over `j < n`.
pub open spec fn sum_of(f: spec_fn(int) -> int, n: int) -> int
    decreases n,
{
    if n <= 0 {
        0
    } else {
        sum_of(f, n - 1) + f(n - 1)
    }
}

/// The sum over `k < bound` of `count_of(f, k, n)`.
pub open spec fn total_count(f: spec_fn(int) -> int, bound: int, n: int) -> int
    decreases bound,
{
    if bound <= 0 {
        0
    } else {
        total_count(f, bound - 1, n) + count_of(f, bound - 1, n)
    }
}

/// The sum over `k < bound` of `k * count_of(f, k, n)`.
pub open spec fn weighted_count(f: spec_fn(int) -> int, bound: int, n: int) -> int
    decreases bound,
{
    if bound <= 0 {
        0
    } else {
        weighted_count(f, bound - 1, n) + (bound - 1) * count_of(f, bound - 1, n)
    }
}

proof fn lemma_count_step(f: spec_fn(int) -> int, bound: int, n: int)
    requires
        0 <= bound,
        0 <= n,
    ensures
        total_count(f, bound, n + 1) == total_count(f, bound, n) + if 0 <= f(n) < bound {
            1int
        } else {
            0int
        },
        weighted_count(f, bound, n + 1) == weighted_count(f, bound, n) + if 0 <= f(n) < bound {
            f(n)
        } else {
            0int
        },
    decreases bound,
{
    if bound > 0 {
        lemma_count_step(f, bound - 1, n);
        assert((bound - 1) * count_of(f, bound - 1, n + 1) == (bound - 1) * count_of(f, bound - 1, n)
            + if f(n) == bound - 1 { bound - 1 } else { 0int }) by (nonlinear_arith)
            requires
                count_of(f, bound - 1, n + 1) == count_of(f, bound - 1, n) + if f(n) == bound - 1 {
                    1int
                } else {
                    0int
                },
        ;
    }
}

/// Counting the values of `f` below `n`, each once.
pub proof fn lemma_sums_by_count(f: spec_fn(int) -> int, bound: int, n: int)
    requires
        0 <= bound,
        0 <= n,
        forall|j: int| 0 <= j < n ==> 0 <= #[trigger] f(j) < bound,
    ensures
        total_count(f, bound, n) == n,
        weighted_count(f, bound, n) == sum_of(f, n),
    decreases n,
{
    if n == 0 {
        lemma_zero_counts(f, bound);
    } else {
        lemma_sums_by_count(f, bound, n - 1);
        lemma_count_step(f, bound, n - 1);
    }
}

pub proof fn lemma_zero_bound(f: spec_fn(int) -> int, n: int)
    ensures
        total_count(f, 0, n) == 0,
{
}

proof fn lemma_zero_counts(f: spec_fn(int) -> int, bound: int)
    requires
        0 <= bound,
    ensures
        total_count(f, bound, 0) == 0,
        weighted_count(f, bound, 0) == 0,
    decreases bound,
{
    if bound > 0 {
        lemma_zero_counts(f, bound - 1);
    }
}

pub proof fn lemma_count_positive(f: spec_fn(int) -> int, k: int, n: int, j: int)
    requires
        0 <= j < n,
        f(j) == k,
    ensures
        count_of(f, k, n) >= 1,
    decreases n,
{
    if j < n - 1 {
        lemma_count_positive(f, k, n - 1, j);
        lemma_count_nonneg(f, k, n - 1);
    } else {
        lemma_count_nonneg(f, k, n - 1);
    }
}

pub proof fn lemma_count_nonneg(f: spec_fn(int) -> int, k: int, n: int)
    ensures
        count_of(f, k, n) >= 0,
    decreases n,
{
    if n > 0 {
        lemma_count_nonneg(f, k, n - 1);
    }
}

pub proof fn lemma_count_at_most_one(f: spec_fn(int) -> int, k: int, n: int)
    requires
        forall|i: int, j: int| 0 <= i < j < n ==> #[trigger] f(i) != #[trigger] f(j),
    ensures
        count_of(f, k, n) <= 1,
        count_of(f, k, n) >= 1 ==> exists|j: int| 0 <= j < n && #[trigger] f(j) == k,
    decreases n,
{
    if n > 0 {
        lemma_count_at_most_one(f, k, n - 1);
        lemma_count_nonneg(f, k, n - 1);
        if f(n - 1) == k && count_of(f, k, n - 1) >= 1 {
            let j = choose|j: int| 0 <= j < n - 1 && #[trigger] f(j) == k;
            assert(f(j) == f(n - 1));
        }
    }
}

/// When every count is at least one (or every count at most one) and the
/// counts add up to `bound`, every count is exactly one.
proof fn lemma_counts_exactly_one(f: spec_fn(int) -> int, bound: int, n: int, at_least: bool)
    requires
        0 <= bound,
        at_least ==> forall|k: int| 0 <= k < bound ==> #[trigger] count_of(f, k, n) >= 1,
        !at_least ==> forall|k: int| 0 <= k < bound ==> 0 <= #[trigger] count_of(f, k, n) <= 1,
    ensures
        total_count(f, bound, n) == bound ==> forall|k: int| 0 <= k < bound ==> #[trigger] count_of(f, k, n) == 1,
        at_least ==> total_count(f, bound, n) >= bound,
        !at_least ==> total_count(f, bound, n) <= bound,
    decreases bound,
{
    if bound > 0 {
        lemma_counts_exactly_one(f, bound - 1, n, at_least);
    }
}

proof fn lemma_weighted_when_ones(f: spec_fn(int) -> int, bound: int, n: int)
    requires
        0 <= bound,
        forall|k: int| 0 <= k < bound ==> #[trigger] count_of(f, k, n) == 1,
    ensures
        weighted_count(f, bound, n) == sum_of(|k: int| k, bound),
    decreases bound,
{
    if bound > 0 {
        lemma_weighted_when_ones(f, bound - 1, n);
    }
}

proof fn lemma_sum_of_range()
    ensures
        sum_of(|k: int| k, 26) == 325,
{
    reveal_with_fuel(sum_of, 27);
}

/// `sum(d) - sum(a) + sum(b)` is a multiple of 26 when `d(j)` is
/// `a(j) - b(j)` reduced mod 26.
proof fn lemma_residue_sums(a0: spec_fn(int) -> int, b0: spec_fn(int) -> int, d: spec_fn(int) -> int, n: int)
    requires
        0 <= n,
        forall|j: int| 0 <= j < n ==> #[trigger] d(j) == (a0(j) - b0(j)) % 26,
    ensures
        (sum_of(d, n) - sum_of(a0, n) + sum_of(b0, n)) % 26 == 0,
    decreases n,
{
    if n > 0 {
        lemma_residue_sums(a0, b0, d, n - 1);
        let x = a0(n - 1) - b0(n - 1);
        vstd::arithmetic::div_mod::lemma_fundamental_div_mod(x, 26);
        let a = sum_of(d, n - 1) - sum_of(a0, n - 1) + sum_of(b0, n - 1);
        vstd::arithmetic::div_mod::lemma_fundamental_div_mod(a, 26);
        assert((a + (x % 26 - x)) % 26 == 0) by {
            assert(x % 26 - x == -26 * (x / 26));
            assert(a == 26 * (a / 26));
            assert(a + (x % 26 - x) == 26 * (a / 26 - x / 26));
            vstd::arithmetic::div_mod::lemma_mod_multiples_basic(a / 26 - x / 26, 26);
        }
    }
}

/// Some `j < 26` has `f(j) == k`.
pub open spec fn takes_value(f: spec_fn(int) -> int, k: int) -> bool {
    exists|j: int| 0 <= j < 26 && #[trigger] f(j) == k
}

/// A function from `0..26` onto `0..26` that hits every value adds up to 325;
/// so does one that is injective into `0..26`.
proof fn lemma_permutation_sum(f: spec_fn(int) -> int, onto: bool)
    requires
        forall|j: int| 0 <= j < 26 ==> 0 <= #[trigger] f(j) < 26,
        onto ==> forall|k: int| 0 <= k < 26 ==> #[trigger] takes_value(f, k),
        !onto ==> forall|i: int, j: int| 0 <= i < j < 26 ==> #[trigger] f(i) != #[trigger] f(j),
    ensures
        sum_of(f, 26) == 325,
{
    lemma_sums_by_count(f, 26, 26);
    if onto {
        assert forall|k: int| 0 <= k < 26 implies #[trigger] count_of(f, k, 26) >= 1 by {
            assert(takes_value(f, k));
            let j = choose|j: int| 0 <= j < 26 && #[trigger] f(j) == k;
            lemma_count_positive(f, k, 26, j);
        }
    } else {
        assert forall|k: int| 0 <= k < 26 implies 0 <= #[trigger] count_of(f, k, 26) <= 1 by {
            lemma_count_at_most_one(f, k, 26);
            lemma_count_nonneg(f, k, 26);
        }
    }
    lemma_counts_exactly_one(f, 26, 26, onto);
    lemma_weighted_when_ones(f, 26, 26);
    lemma_sum_of_range();
}

/// Some right rotation by less than 26 places clears every fixed point of a
/// bijection.
pub proof fn lemma_clear_right_rotation_exists(m: Seq<u8>)
    requires
        is_bijection(m),
    ensures
        exists|k: int| 0 <= k < 26 && no_fixed_point(#[trigger] rotated_right(m, k)),
{
    let v = |j: int| m[j] - 97;
    let d = |j: int| (m[j] - 97 - j) % 26;
    if forall|k: int| 0 <= k < 26 ==> #[trigger] takes_value(d, k) {
        lemma_permutation_sum(v, false);
        lemma_permutation_sum(d, true);
        lemma_residue_sums(v, |k: int| k, d, 26);
        lemma_sum_of_range();
        assert(false);
    } else {
        let k = choose|k: int| 0 <= k < 26 && !#[trigger] takes_value(d, k);
        assert forall|i: int| 0 <= i < 26 implies #[trigger] rotated_right(m, k)[i] != 97 + i by {
            let j = (i - k) % 26;
            if m[j] == 97 + i {
                assert(d(j) == k);
                assert(takes_value(d, k));
            }
        }
        assert(no_fixed_point(rotated_right(m, k)));
    }
}

/// Some left rotation by less than 26 places clears every fixed point of a
/// bijection.
pub proof fn lemma_clear_left_rotation_exists(m: Seq<u8>)
    requires
        is_bijection(m),
    ensures
        exists|k: int| 0 <= k < 26 && no_fixed_point(#[trigger] rotated_left(m, k)),
{
    let v = |j: int| m[j] - 97;
    let d = |j: int| (j - (m[j] - 97)) % 26;
    if forall|k: int| 0 <= k < 26 ==> #[trigger] takes_value(d, k) {
        lemma_permutation_sum(v, false);
        lemma_permutation_sum(d, true);
        lemma_residue_sums(|k: int| k, v, d, 26);
        lemma_sum_of_range();
        assert(false);
    } else {
        let k = choose|k: int| 0 <= k < 26 && !#[trigger] takes_value(d, k);
        assert forall|i: int| 0 <= i < 26 implies #[trigger] rotated_left(m, k)[i] != 97 + i by {
            let j = (i + k) % 26;
            if m[j] == 97 + i {
                assert(d(j) == k);
                assert(takes_value(d, k));
            }
        }
        assert(no_fixed_point(rotated_left(m, k)));
    }
}

proof fn lemma_first_clear(m: Seq<u8>, from: int, k: int, right: bool)
    requires
        0 <= from <= k < 26,
        right ==> no_fixed_point(rotated_right(m, k)),
        !right ==> no_fixed_point(rotated_left(m, k)),
    ensures
        right ==> from <= clear_right_from(m, from) <= k,
        !right ==> from <= clear_left_from(m, from) <= k,
    decreases k - from,
{
    if from < k {
        lemma_first_clear(m, from + 1, k, right);
    }
}

/// Rotating a bijection right by the least clearing amount leaves no fixed
/// point, and that amount is below 26.
pub proof fn lemma_clear_right(m: Seq<u8>)
    requires
        is_bijection(m),
    ensures
        clear_right_from(m, 0) < 26,
        no_fixed_point(rotated_right(m, clear_right_from(m, 0))),
        is_bijection(rotated_right(m, clear_right_from(m, 0))),
{
    lemma_clear_right_rotation_exists(m);
    let k = choose|k: int| 0 <= k < 26 && no_fixed_point(#[trigger] rotated_right(m, k));
    lemma_first_clear(m, 0, k, true);
    lemma_clear_is_clear(m, 0);
    lemma_rotation_bijection(m, clear_right_from(m, 0));
}

/// Rotating a bijection left by the least clearing amount leaves no fixed
/// point, and that amount is below 26.
pub proof fn lemma_clear_left(m: Seq<u8>)
    requires
        is_bijection(m),
    ensures
        clear_left_from(m, 0) < 26,
        no_fixed_point(rotated_left(m, clear_left_from(m, 0))),
        is_bijection(rotated_left(m, clear_left_from(m, 0))),
{
    lemma_clear_left_rotation_exists(m);
    let k = choose|k: int| 0 <= k < 26 && no_fixed_point(#[trigger] rotated_left(m, k));
    lemma_first_clear(m, 0, k, false);
    lemma_clear_is_clear(m, 0);
    lemma_rotation_bijection(m, clear_left_from(m, 0));
}

proof fn lemma_clear_is_clear(m: Seq<u8>, from: int)
    requires
        0 <= from <= 26,
    ensures
        clear_right_from(m, from) < 26 ==> no_fixed_point(rotated_right(m, clear_right_from(m, from))),
        clear_left_from(m, from) < 26 ==> no_fixed_point(rotated_left(m, clear_left_from(m, from))),
    decreases 26 - from,
{
    if from < 26 {
        lemma_clear_is_clear(m, from + 1);
    }
}

/// A rotation of an alphabet map (of a bijection) is again one.
pub proof fn lemma_rotation_bijection(m: Seq<u8>, k: int)
    requires
        is_alphabet_map(m),
        0 <= k <= 26,
    ensures
        is_alphabet_map(rotated_right(m, k)),
        is_alphabet_map(rotated_left(m, k)),
        is_bijection(m) ==> is_bijection(rotated_right(m, k)),
        is_bijection(m) ==> is_bijection(rotated_left(m, k)),
{
    assert forall|i: int, j: int| 0 <= i < j < 26 && is_bijection(m) implies rotated_right(m, k)[i]
        != rotated_right(m, k)[j] by {
        let a = (i - k) % 26;
        let b = (j - k) % 26;
        assert(a != b);
        if a < b {
            assert(m[a] != m[b]);
        } else {
            assert(m[b] != m[a]);
        }
    }
    assert forall|i: int, j: int| 0 <= i < j < 26 && is_bijection(m) implies rotated_left(m, k)[i]
        != rotated_left(m, k)[j] by {
        let a = (i + k) % 26;
        let b = (j + k) % 26;
        assert(a != b);
        if a < b {
            assert(m[a] != m[b]);
        } else {
            assert(m[b] != m[a]);
        }
    }
}

pub fn has_fixed_point(m: &Vec<u8>) -> (r: bool)
    requires
        m@.len() == 26,
    ensures
        r == !no_fixed_point(m@),
{
    let mut i: usize = 0;
    while i < 26
        invariant
            i <= 26,
            m@.len() == 26,
            forall|j: int| 0 <= j < i ==> #[trigger] m@[j] != 97 + j,
        decreases 26 - i,
    {
        if m[i] as usize == 97 + i {
            return true;
        }
        i += 1;
    }
    false
}

/// Rotates an alphabet map right (`right`) or left by one place.
fn rotate_one(m: &Vec<u8>, right: bool) -> (r: Vec<u8>)
    requires
        m@.len() == 26,
    ensures
        right ==> r@ == rotated_right(m@, 1),
        !right ==> r@ == rotated_left(m@, 1),
{
    let mut v: Vec<u8> = Vec::new();
    let mut i: usize = 0;
    while i < 26
        invariant
            i <= 26,
            m@.len() == 26,
            right ==> v@ == rotated_right(m@, 1).take(i as int),
            !right ==> v@ == rotated_left(m@, 1).take(i as int),
        decreases 26 - i,
    {
        let j: usize = if right { (i + 25) % 26 } else { (i + 1) % 26 };
        v.push(m[j]);
        i += 1;
        assert(right ==> v@ =~= rotated_right(m@, 1).take(i as int));
        assert(!right ==> v@ =~= rotated_left(m@, 1).take(i as int));
    }
    assert(right ==> v@ =~= rotated_right(m@, 1));
    assert(!right ==> v@ =~= rotated_left(m@, 1));
    v
}

/// Rotates `m` one place at a time, right or left, until no letter maps to
/// itself.
pub fn clear_fixed_points(m: &Vec<u8>, right: bool) -> (r: Vec<u8>)
    requires
        is_bijection(m@),
    ensures
        right ==> r@ == rotated_right(m@, clear_right_from(m@, 0)),
        !right ==> r@ == rotated_left(m@, clear_left_from(m@, 0)),
        is_derangement_map(r@),
{
    let mut cur = m.clone();
    let mut k: usize = 0;
    proof {
        assert(cur@ =~= rotated_right(m@, 0));
        assert(cur@ =~= rotated_left(m@, 0));
        lemma_clear_right(m@);
        lemma_clear_left(m@);
    }
    while k < 26 && has_fixed_point(&cur)
        invariant
            k <= 26,
            is_bijection(m@),
            m@.len() == 26,
            cur@.len() == 26,
            right ==> cur@ == rotated_right(m@, k as int),
            !right ==> cur@ == rotated_left(m@, k as int),
            right ==> clear_right_from(m@, 0) == clear_right_from(m@, k as int),
            !right ==> clear_left_from(m@, 0) == clear_left_from(m@, k as int),
        decreases 26 - k,
    {
        let next = rotate_one(&cur, right);
        proof {
            lemma_rotate_step(m@, k as int);
        }
        cur = next;
        k += 1;
    }
    proof {
        lemma_clear_right(m@);
        lemma_clear_left(m@);
    }
    cur
}

proof fn lemma_rotate_step(m: Seq<u8>, k: int)
    requires
        m.len() == 26,
        0 <= k < 26,
    ensures
        rotated_right(rotated_right(m, k), 1) == rotated_right(m, k + 1),
        rotated_left(rotated_left(m, k), 1) == rotated_left(m, k + 1),
        no_fixed_point(rotated_right(m, k)) ==> clear_right_from(m, k) == k,
        !no_fixed_point(rotated_right(m, k)) ==> clear_right_from(m, k) == clear_right_from(m, k + 1),
        no_fixed_point(rotated_left(m, k)) ==> clear_left_from(m, k) == k,
        !no_fixed_point(rotated_left(m, k)) ==> clear_left_from(m, k) == clear_left_from(m, k + 1),
{
    assert forall|i: int| 0 <= i < 26 implies #[trigger] rotated_right(rotated_right(m, k), 1)[i]
        == rotated_right(m, k + 1)[i] by {
        let a = (i - 1) % 26;
        if i == 0 {
            assert(a == 25);
        } else {
            assert(a == i - 1);
        }
    }
    assert(rotated_right(rotated_right(m, k), 1) =~= rotated_right(m, k + 1));
    assert forall|i: int| 0 <= i < 26 implies #[trigger] rotated_left(rotated_left(m, k), 1)[i]
        == rotated_left(m, k + 1)[i] by {
        let a = (i + 1) % 26;
        if i == 25 {
            assert(a == 0);
        } else {
            assert(a == i + 1);
        }
    }
    assert(rotated_left(rotated_left(m, k), 1) =~= rotated_left(m, k + 1));
}

/// A bijection of the alphabet with no fixed point.
pub open spec fn is_derangement_map(m: Seq<u8>) -> bool {
    is_bijection(m) && no_fixed_point(m)
}

} // verus!
