//! Binomial coefficients and the binomial probability mass function.

use vstd::prelude::*;
use vstd::arithmetic::div_mod::lemma_div_by_multiple;
use vstd::arithmetic::power::{
    pow, lemma0_pow, lemma1_pow, lemma_pow0, lemma_pow1, lemma_pow_increases, lemma_pow_positive,
};
use crate::sums::{
    sum, lemma_sum_add, lemma_sum_nonneg, lemma_sum_scale, lemma_sum_shift, lemma_sum_term_le,
    lemma_sum_widen,
};

verus! {

/// Largest number of trials for which every intermediate product of
/// [`n_choose_k`] fits in 64 bits: `29 * 28 * .. * 16` does, `30 * 29 * .. * 16`
/// does not.
pub const MAX_NUM_TRIALS: i32 = 29;

/// The binomial coefficient, by Pascal's rule.
pub open spec fn binomial(n: nat, k: nat) -> nat
    decreases n,
{
    if k == 0 {
        1
    } else if n == 0 {
        0
    } else {
        binomial((n - 1) as nat, (k - 1) as nat) + binomial((n - 1) as nat, k)
    }
}

/// The product of the integers in `lo + 1 ..= hi`; one when there are none.
pub open spec fn rising(lo: nat, hi: nat) -> nat
    decreases hi,
{
    if hi <= lo {
        1
    } else {
        hi * rising(lo, (hi - 1) as nat)
    }
}

/// `29 * 28 * .. * 16`, the largest numerator that [`n_choose_k`] builds.
pub open spec fn max_product() -> nat {
    6761440164390912000
}

/// A product of positive integers is positive.
proof fn lemma_rising_positive(lo: nat, hi: nat)
    ensures
        rising(lo, hi) >= 1,
    decreases hi,
{
    if hi > lo {
        lemma_rising_positive(lo, (hi - 1) as nat);
        assert(hi * rising(lo, (hi - 1) as nat) >= 1) by (nonlinear_arith)
            requires
                hi >= 1,
                rising(lo, (hi - 1) as nat) >= 1,
        ;
    }
}

/// Moving both ends of a product up by one does not make it smaller.
proof fn lemma_rising_shift(lo: nat, hi: nat)
    ensures
        rising(lo, hi) <= rising(lo + 1, hi + 1),
    decreases hi,
{
    if hi > lo {
        let below = (hi - 1) as nat;
        lemma_rising_shift(lo, below);
        assert(rising(lo + 1, hi + 1) == (hi + 1) * rising(lo + 1, hi));
        assert(hi * rising(lo, below) <= (hi + 1) * rising(lo + 1, hi)) by (nonlinear_arith)
            requires
                rising(lo, below) <= rising(lo + 1, hi),
        ;
    }
}

/// Moving both ends of a product up by `d` does not make it smaller.
proof fn lemma_rising_shift_by(lo: nat, hi: nat, d: nat)
    ensures
        rising(lo, hi) <= rising(lo + d, hi + d),
    decreases d,
{
    if d > 0 {
        lemma_rising_shift_by(lo, hi, (d - 1) as nat);
        lemma_rising_shift((lo + d - 1) as nat, (hi + d - 1) as nat);
    }
}

/// A product that starts lower is not smaller.
proof fn lemma_rising_lower(lo: nat, lower: nat, hi: nat)
    requires
        lower <= lo,
    ensures
        rising(lo, hi) <= rising(lower, hi),
    decreases hi,
{
    if hi > lo {
        let below = (hi - 1) as nat;
        lemma_rising_lower(lo, lower, below);
        assert(hi * rising(lo, below) <= hi * rising(lower, below)) by (nonlinear_arith)
            requires
                rising(lo, below) <= rising(lower, below),
        ;
    } else {
        lemma_rising_positive(lower, hi);
    }
}

/// The value of the largest numerator, one factor at a time.
proof fn lemma_max_product()
    ensures
        rising(15, 29) == max_product(),
{
    assert(rising(15, 15) == 1);
    assert(rising(15, 16) == 16);
    assert(rising(15, 17) == 272);
    assert(rising(15, 18) == 4896);
    assert(rising(15, 19) == 93024);
    assert(rising(15, 20) == 1860480);
    assert(rising(15, 21) == 39070080);
    assert(rising(15, 22) == 859541760);
    assert(rising(15, 23) == 19769460480);
    assert(rising(15, 24) == 474467051520);
    assert(rising(15, 25) == 11861676288000);
    assert(rising(15, 26) == 308403583488000);
    assert(rising(15, 27) == 8326896754176000);
    assert(rising(15, 28) == 233153109116928000);
    assert(rising(15, 29) == 6761440164390912000);
}

/// At most fourteen consecutive integers, none above 29, have a product that
/// fits in 64 bits.
proof fn lemma_rising_bound(lo: nat, hi: nat)
    requires
        hi <= 29,
        hi <= lo + 14,
    ensures
        1 <= rising(lo, hi) <= max_product(),
{
    lemma_rising_positive(lo, hi);
    let d = (29 - hi) as nat;
    lemma_rising_shift_by(lo, hi, d);
    lemma_rising_lower(lo + d, 15, 29);
    lemma_max_product();
}

/// No way to choose more than there is.
pub proof fn lemma_binomial_beyond(n: nat, k: nat)
    requires
        k > n,
    ensures
        binomial(n, k) == 0,
    decreases n,
{
    if n > 0 {
        lemma_binomial_beyond((n - 1) as nat, (k - 1) as nat);
        lemma_binomial_beyond((n - 1) as nat, k);
    }
}

/// Choosing nothing, or everything, can be done in exactly one way.
pub proof fn lemma_binomial_edges(n: nat)
    ensures
        binomial(n, 0) == 1,
        binomial(n, n) == 1,
    decreases n,
{
    if n > 0 {
        lemma_binomial_edges((n - 1) as nat);
        lemma_binomial_beyond((n - 1) as nat, n);
    }
}

/// Choosing `k` of `n` is choosing the `n - k` that are left out.
pub proof fn lemma_binomial_symmetric(n: nat, k: nat)
    requires
        k <= n,
    ensures
        binomial(n, k) == binomial(n, (n - k) as nat),
    decreases n,
{
    lemma_binomial_edges(n);
    if 0 < k && k < n {
        let m = (n - 1) as nat;
        lemma_binomial_symmetric(m, (k - 1) as nat);
        lemma_binomial_symmetric(m, k);
    }
}

/// There is at least one way to choose `k` of `n` when `k <= n`.
pub proof fn lemma_binomial_positive(n: nat, k: nat)
    requires
        k <= n,
    ensures
        binomial(n, k) >= 1,
    decreases n,
{
    if k > 0 && n > 0 {
        lemma_binomial_positive((n - 1) as nat, (k - 1) as nat);
    }
}

/// The absorption identity: `k * C(n, k) == n * C(n - 1, k - 1)`.
pub proof fn lemma_binomial_absorb(n: nat, k: nat)
    requires
        n >= 1,
        k >= 1,
    ensures
        k * binomial(n, k) == n * binomial((n - 1) as nat, (k - 1) as nat),
    decreases n,
{
    let m = (n - 1) as nat;
    let j = (k - 1) as nat;
    if k > n {
        lemma_binomial_beyond(n, k);
        lemma_binomial_beyond(m, j);
        assert(k * binomial(n, k) == n * binomial(m, j)) by (nonlinear_arith)
            requires
                binomial(n, k) == 0,
                binomial(m, j) == 0,
        ;
    } else if j == 0 {
        lemma_binomial_edges(m);
        assert(binomial(n, 1) == binomial(m, 0) + binomial(m, 1));
        if m > 0 {
            lemma_binomial_absorb(m, 1);
            lemma_binomial_edges((m - 1) as nat);
            assert(m * binomial((m - 1) as nat, 0) == m) by (nonlinear_arith)
                requires
                    binomial((m - 1) as nat, 0) == 1,
            ;
        } else {
            assert(binomial(0, 1) == 0);
        }
        assert(binomial(n, 1) == n);
        assert(n * binomial(m, 0) == n) by (nonlinear_arith)
            requires
                binomial(m, 0) == 1,
        ;
        assert(k * binomial(n, k) == n * binomial(m, j));
    } else {
        lemma_binomial_absorb(m, j);
        lemma_binomial_absorb(m, k);
        let a = binomial((m - 1) as nat, (j - 1) as nat);
        let b = binomial((m - 1) as nat, j);
        assert(binomial(m, j) == a + b);
        assert(j * binomial(m, j) == m * a);
        assert(k * binomial(m, k) == m * b);
        assert(binomial(n, k) == binomial(m, j) + binomial(m, k));
        assert(k * (binomial(m, j) + binomial(m, k)) == n * binomial(m, j)) by (nonlinear_arith)
            requires
                binomial(m, j) == a + b,
                j * binomial(m, j) == m * a,
                k * binomial(m, k) == m * b,
                k == j + 1,
                n == m + 1,
        ;
        assert(k * binomial(n, k) == n * binomial(m, j));
    }
}

/// The integers in `lo + 1 ..= hi` multiply to `C(hi, hi - lo) * (hi - lo)!`.
pub proof fn lemma_rising_is_binomial(lo: nat, hi: nat)
    requires
        lo <= hi,
    ensures
        rising(lo, hi) == binomial(hi, (hi - lo) as nat) * rising(0, (hi - lo) as nat),
    decreases hi,
{
    let s = (hi - lo) as nat;
    if s == 0 {
        assert(binomial(hi, 0) * rising(0, 0) == 1) by (nonlinear_arith)
            requires
                binomial(hi, 0) == 1,
                rising(0, 0) == 1,
        ;
    } else {
        let below = (hi - 1) as nat;
        let t = (s - 1) as nat;
        lemma_rising_is_binomial(lo, below);
        lemma_binomial_absorb(hi, s);
        assert(rising(0, s) == s * rising(0, t));
        assert(hi * (binomial(below, t) * rising(0, t)) == binomial(hi, s) * (s * rising(0, t)))
            by (nonlinear_arith)
            requires
                s * binomial(hi, s) == hi * binomial(below, t),
        ;
    }
}

/// The exact binomial coefficient `C(n, k)`.
///
/// With `s` the smaller and `b` the bigger of `k` and `n - k`, the integers in
/// `b + 1 ..= n` are multiplied up, then divided by the product of those in
/// `2 ..= s`: `2 * s - 1` multiplications and one division.
pub fn n_choose_k(n: i32, k: i32) -> (result: i64)
    requires
        1 <= n <= MAX_NUM_TRIALS,
        0 <= k <= n,
    ensures
        result == binomial(n as nat, k as nat),
        result >= 1,
{
    let n_minus_k: i32 = n - k;
    let (smaller, bigger): (i32, i32) = if k < n_minus_k {
        (k, n_minus_k)
    } else {
        (n_minus_k, k)
    };

    let mut numerator: i64 = 1;
    let mut factor: i32 = bigger + 1;
    while factor <= n
        invariant
            0 <= smaller <= 14,
            0 <= bigger,
            smaller + bigger == n,
            n <= 29,
            bigger + 1 <= factor <= n + 1,
            numerator == rising(bigger as nat, (factor - 1) as nat),
        decreases n + 1 - factor,
    {
        proof {
            let before = rising(bigger as nat, (factor - 1) as nat);
            let after = rising(bigger as nat, factor as nat);
            lemma_rising_bound(bigger as nat, factor as nat);
            assert(after == factor * before);
            assert(numerator * factor == after) by (nonlinear_arith)
                requires
                    numerator == before,
                    after == factor * before,
            ;
        }
        numerator = numerator * (factor as i64);
        factor = factor + 1;
    }

    let mut denominator: i64 = 1;
    let mut factor: i32 = 2;
    assert(rising(0, 1) == 1) by {
        assert(rising(0, 0) == 1);
    }
    while factor <= smaller
        invariant
            0 <= smaller <= 14,
            2 <= factor,
            factor <= smaller + 1 || (factor == 2 && smaller < 2),
            denominator == rising(0, (factor - 1) as nat),
        decreases smaller + 1 - factor,
    {
        proof {
            let before = rising(0, (factor - 1) as nat);
            let after = rising(0, factor as nat);
            lemma_rising_bound(0, factor as nat);
            assert(after == factor * before);
            assert(denominator * factor == after) by (nonlinear_arith)
                requires
                    denominator == before,
                    after == factor * before,
            ;
        }
        denominator = denominator * (factor as i64);
        factor = factor + 1;
    }

    proof {
        let s = smaller as nat;
        assert(rising(0, 0) == 1);
        assert(denominator == rising(0, s));
        lemma_rising_positive(0, s);
        lemma_rising_is_binomial(bigger as nat, n as nat);
        lemma_div_by_multiple(binomial(n as nat, s) as int, denominator as int);
        lemma_binomial_symmetric(n as nat, k as nat);
        lemma_binomial_positive(n as nat, k as nat);
    }
    numerator / denominator
}

/// The weight of `k` successes in `n` independent trials, each of which
/// succeeds in `hit` ways and fails in `miss` ways: `C(n, k) * hit^k *
/// miss^(n - k)`. Divided by `(hit + miss)^n` it is the binomial probability
/// of `k` successes. No other number of successes has a weight.
pub open spec fn binomial_weight(n: nat, k: int, hit: int, miss: int) -> int {
    if 0 <= k <= n {
        binomial(n, k as nat) * (pow(hit, k as nat) * pow(miss, (n - k) as nat))
    } else {
        0
    }
}

/// The weights of all numbers of successes in `n` trials, as a function.
pub open spec fn binomial_weights(n: nat, hit: int, miss: int) -> spec_fn(int) -> int {
    |k: int| binomial_weight(n, k, hit, miss)
}

/// One more factor: `b^(e + 1) == b * b^e`.
proof fn lemma_pow_step(b: int, e: nat)
    ensures
        pow(b, e + 1) == b * pow(b, e),
{
    reveal(pow);
}

/// A weight is never negative where neither `hit` nor `miss` is.
pub proof fn lemma_binomial_weight_nonneg(n: nat, k: int, hit: int, miss: int)
    requires
        0 <= hit,
        0 <= miss,
    ensures
        0 <= binomial_weight(n, k, hit, miss),
{
    if 0 <= k <= n {
        lemma_pow_nonneg(hit, k as nat);
        lemma_pow_nonneg(miss, (n - k) as nat);
        assert(binomial(n, k as nat) * (pow(hit, k as nat) * pow(miss, (n - k) as nat)) >= 0)
            by (nonlinear_arith)
            requires
                binomial(n, k as nat) >= 0,
                pow(hit, k as nat) >= 0,
                pow(miss, (n - k) as nat) >= 0,
        ;
    }
}

/// A power of a number that is not negative is not negative.
proof fn lemma_pow_nonneg(b: int, e: nat)
    requires
        0 <= b,
    ensures
        0 <= pow(b, e),
{
    if b == 0 {
        if e == 0 {
            lemma_pow0(b);
        } else {
            lemma0_pow(e);
        }
    } else {
        lemma_pow_positive(b, e);
    }
}

/// One more trial: it succeeds, on top of one success fewer before it, or
/// fails, on top of as many.
proof fn lemma_binomial_weight_step(n: nat, k: int, hit: int, miss: int)
    requires
        n >= 1,
    ensures
        binomial_weight(n, k, hit, miss) == hit * binomial_weight(
            (n - 1) as nat,
            k - 1,
            hit,
            miss,
        ) + miss * binomial_weight((n - 1) as nat, k, hit, miss),
{
    let m = (n - 1) as nat;
    let now = binomial_weight(n, k, hit, miss);
    let after_hit = binomial_weight(m, k - 1, hit, miss);
    let after_miss = binomial_weight(m, k, hit, miss);
    lemma_pow0(hit);
    lemma_pow0(miss);
    lemma_binomial_edges(n);
    lemma_binomial_edges(m);
    if k < 0 || k > n {
        assert(hit * 0 + miss * 0 == 0);
    } else if k == 0 {
        lemma_pow_step(miss, m);
        let rest = pow(miss, m);
        assert(after_hit == 0);
        assert(after_miss == 1 * (1 * rest));
        assert(now == 1 * (1 * (miss * rest)));
        assert(1 * (1 * (miss * rest)) == hit * 0 + miss * (1 * (1 * rest))) by (nonlinear_arith);
    } else if k == n {
        lemma_pow_step(hit, m);
        let rest = pow(hit, m);
        assert(after_miss == 0);
        assert(after_hit == 1 * (rest * 1));
        assert(now == 1 * ((hit * rest) * 1));
        assert(1 * ((hit * rest) * 1) == hit * (1 * (rest * 1)) + miss * 0) by (nonlinear_arith);
    } else {
        let c1 = binomial(m, (k - 1) as nat);
        let c2 = binomial(m, k as nat);
        let a = pow(hit, (k - 1) as nat);
        let b = pow(miss, (m - k) as nat);
        lemma_pow_step(hit, (k - 1) as nat);
        lemma_pow_step(miss, (m - k) as nat);
        assert(binomial(n, k as nat) == c1 + c2);
        assert(pow(hit, k as nat) == hit * a);
        assert(pow(miss, (n - k) as nat) == miss * b);
        assert(now == (c1 + c2) * ((hit * a) * (miss * b)));
        assert(after_hit == c1 * (a * (miss * b)));
        assert(after_miss == c2 * ((hit * a) * b));
        let y = a * (miss * b);
        let z = (hit * a) * b;
        let p = (hit * a) * (miss * b);
        assert(p == hit * y) by (nonlinear_arith)
            requires
                y == a * (miss * b),
                p == (hit * a) * (miss * b),
        ;
        assert(p == miss * z) by (nonlinear_arith)
            requires
                z == (hit * a) * b,
                p == (hit * a) * (miss * b),
        ;
        assert((c1 + c2) * p == c1 * p + c2 * p) by (nonlinear_arith);
        assert(c1 * p == hit * (c1 * y)) by (nonlinear_arith)
            requires
                p == hit * y,
        ;
        assert(c2 * p == miss * (c2 * z)) by (nonlinear_arith)
            requires
                p == miss * z,
        ;
    }
}

/// The binomial theorem: the weights of all numbers of successes in `n`
/// trials add up to `(hit + miss)^n`, so the binomial probabilities add up to
/// one.
pub proof fn lemma_binomial_theorem(n: nat, hit: int, miss: int)
    ensures
        sum(binomial_weights(n, hit, miss), 0, (n + 1) as int) == pow(hit + miss, n),
    decreases n,
{
    let now = binomial_weights(n, hit, miss);
    if n == 0 {
        lemma_pow0(hit);
        lemma_pow0(miss);
        lemma_pow0(hit + miss);
        assert(sum(now, 0, 1) == sum(now, 0, 0) + now(0));
        assert(now(0) == 1 * (1 * 1));
    } else {
        let m = (n - 1) as nat;
        let before = binomial_weights(m, hit, miss);
        let whole = pow(hit + miss, m);
        lemma_binomial_theorem(m, hit, miss);
        let shifted = |k: int| before(k - 1);
        let hits = |k: int| hit * shifted(k);
        let misses = |k: int| miss * before(k);
        assert forall|k: int| 0 <= k < n + 1 implies #[trigger] now(k) == hits(k) + misses(k) by {
            lemma_binomial_weight_step(n, k, hit, miss);
        }
        lemma_sum_add(hits, misses, now, 0, (n + 1) as int);
        lemma_sum_scale(shifted, hits, hit, 0, (n + 1) as int);
        lemma_sum_scale(before, misses, miss, 0, (n + 1) as int);
        lemma_sum_shift(before, shifted, 1, 0, (n + 1) as int);
        lemma_sum_widen(before, 0, n as int, -1, n as int);
        lemma_sum_widen(before, 0, n as int, 0, (n + 1) as int);
        lemma_pow_step(hit + miss, m);
        assert(hit * whole + miss * whole == (hit + miss) * whole) by (nonlinear_arith);
    }
}

/// The binomial probabilities add up to one, for every number of trials and
/// every probability `prob_num / prob_den` of success: the weights of all
/// numbers of successes add up to the denominator `prob_den^n`, whatever its
/// size.
pub proof fn lemma_binomial_pmf_total(n: nat, prob_num: int, prob_den: int)
    ensures
        sum(binomial_weights(n, prob_num, prob_den - prob_num), 0, (n + 1) as int) == pow(
            prob_den,
            n,
        ),
{
    lemma_binomial_theorem(n, prob_num, prob_den - prob_num);
}

/// No weight exceeds `(hit + miss)^n`.
pub proof fn lemma_binomial_weight_bound(n: nat, k: int, hit: int, miss: int)
    requires
        0 <= hit,
        0 <= miss,
    ensures
        binomial_weight(n, k, hit, miss) <= pow(hit + miss, n),
{
    let weights = binomial_weights(n, hit, miss);
    lemma_binomial_theorem(n, hit, miss);
    assert forall|i: int| 0 <= i < n + 1 implies #[trigger] weights(i) >= 0 by {
        lemma_binomial_weight_nonneg(n, i, hit, miss);
    }
    if 0 <= k <= n {
        lemma_sum_term_le(weights, 0, (n + 1) as int, k);
    } else {
        lemma_sum_nonneg(weights, 0, (n + 1) as int);
    }
}

/// `base` to the power of `exp`.
pub fn power(base: u128, exp: u32) -> (result: u128)
    requires
        pow(base as int, exp as nat) <= u128::MAX,
    ensures
        result == pow(base as int, exp as nat),
{
    let mut result: u128 = 1;
    let mut done: u32 = 0;
    proof {
        lemma_pow0(base as int);
    }
    while done < exp
        invariant
            done <= exp,
            result == pow(base as int, done as nat),
            pow(base as int, exp as nat) <= u128::MAX,
        decreases exp - done,
    {
        proof {
            lemma_pow_step(base as int, done as nat);
            if base > 0 {
                lemma_pow_increases(base as nat, (done + 1) as nat, exp as nat);
            } else {
                lemma0_pow((done + 1) as nat);
            }
        }
        result = result * base;
        done = done + 1;
    }
    result
}

/// `base` to the power of `exp`, where it fits in 128 bits.
pub fn checked_power(base: u128, exp: u32) -> (result: Option<u128>)
    ensures
        match result {
            Some(p) => p == pow(base as int, exp as nat),
            None => pow(base as int, exp as nat) > u128::MAX,
        },
{
    if exp == 0 {
        proof {
            lemma_pow0(base as int);
        }
        return Some(1);
    }
    if base <= 1 {
        proof {
            if base == 0 {
                lemma0_pow(exp as nat);
            } else {
                lemma1_pow(exp as nat);
            }
        }
        return Some(base);
    }
    let mut result: u128 = base;
    let mut done: u32 = 1;
    proof {
        lemma_pow1(base as int);
    }
    while done < exp
        invariant
            2 <= base,
            1 <= done <= exp,
            result == pow(base as int, done as nat),
        decreases exp - done,
    {
        proof {
            lemma_pow_step(base as int, done as nat);
            lemma_pow_increases(base as nat, (done + 1) as nat, exp as nat);
            assert(result * base == base * result) by (nonlinear_arith);
        }
        match result.checked_mul(base) {
            Some(next) => {
                result = next;
            },
            None => {
                return None;
            },
        }
        done = done + 1;
    }
    Some(result)
}

/// `ways * prob_num^num_successes * (prob_den - prob_num)^(num_trials -
/// num_successes)`, for `ways` the number of ways to place the successes.
fn weigh(ways: i64, num_trials: i32, num_successes: i32, prob_num: u32, prob_den: u32) -> (weight:
    u128)
    requires
        1 <= num_trials <= MAX_NUM_TRIALS,
        0 <= num_successes <= num_trials,
        ways == binomial(num_trials as nat, num_successes as nat),
        prob_num <= prob_den,
        pow(prob_den as int, num_trials as nat) <= u128::MAX,
    ensures
        weight == binomial_weight(
            num_trials as nat,
            num_successes as int,
            prob_num as int,
            prob_den - prob_num,
        ),
        weight <= pow(prob_den as int, num_trials as nat),
{
    let hit: u128 = prob_num as u128;
    let miss: u128 = (prob_den - prob_num) as u128;
    let num_failures: i32 = num_trials - num_successes;
    proof {
        let n = num_trials as nat;
        let k = num_successes as nat;
        let whole = pow(prob_den as int, n);
        lemma_binomial_weight_bound(n, k as int, hit as int, miss as int);
        lemma_binomial_positive(n, k);
        lemma_pow_nonneg(hit as int, k);
        lemma_pow_nonneg(miss as int, (n - k) as nat);
        let c = binomial(n, k);
        let a = pow(hit as int, k);
        let b = pow(miss as int, (n - k) as nat);
        assert(a * b <= c * (a * b)) by (nonlinear_arith)
            requires
                c >= 1,
                a >= 0,
                b >= 0,
        ;
        if b >= 1 {
            assert(a <= a * b) by (nonlinear_arith)
                requires
                    a >= 0,
                    b >= 1,
            ;
        } else if prob_den > 0 {
            lemma_pow_base_le(hit as int, prob_den as int, k);
            lemma_pow_increases(prob_den as nat, k, n);
        } else if k > 0 {
            lemma0_pow(k);
        } else {
            lemma_pow0(0);
        }
        if a >= 1 {
            assert(b <= a * b) by (nonlinear_arith)
                requires
                    a >= 1,
                    b >= 0,
            ;
        } else if prob_den > 0 {
            lemma_pow_base_le(miss as int, prob_den as int, (n - k) as nat);
            lemma_pow_increases(prob_den as nat, (n - k) as nat, n);
        } else if n > k {
            lemma0_pow((n - k) as nat);
        } else {
            lemma_pow0(0);
        }
    }
    let hits: u128 = power(hit, num_successes as u32);
    let misses: u128 = power(miss, num_failures as u32);
    (ways as u128) * (hits * misses)
}

/// The weight of `num_successes` successes in `num_trials` independent
/// trials, each of which succeeds with probability `prob_num / prob_den`. The
/// binomial probability is this weight divided by `prob_den^num_trials`.
pub fn binomial_pmf(num_trials: i32, num_successes: i32, prob_num: u32, prob_den: u32) -> (weight:
    u128)
    requires
        1 <= num_trials <= MAX_NUM_TRIALS,
        0 <= num_successes <= num_trials,
        prob_num <= prob_den,
        pow(prob_den as int, num_trials as nat) <= u128::MAX,
    ensures
        weight == binomial_weight(
            num_trials as nat,
            num_successes as int,
            prob_num as int,
            prob_den - prob_num,
        ),
        weight <= pow(prob_den as int, num_trials as nat),
{
    let ways = n_choose_k(num_trials, num_successes);
    weigh(ways, num_trials, num_successes, prob_num, prob_den)
}

/// The binomial coefficients that have been asked for, kept for the next
/// time. An entry of zero stands for one that has not been computed yet; no
/// binomial coefficient in the table's range is zero.
pub struct BinomialCache {
    table: Vec<i64>,
}

impl BinomialCache {
    /// Where the table keeps `C(n, k)`.
    pub closed spec fn slot(n: int, k: int) -> int {
        (n - 1) * (MAX_NUM_TRIALS + 1) + k
    }

    /// The table has a slot for every `n` from 1 to `MAX_NUM_TRIALS` and
    /// every `k` up to `n`, and each holds zero or the binomial coefficient.
    pub closed spec fn wf(&self) -> bool {
        &&& self.table@.len() == MAX_NUM_TRIALS * (MAX_NUM_TRIALS + 1)
        &&& forall|n: int, k: int|
            1 <= n <= MAX_NUM_TRIALS && 0 <= k <= n ==> {
                let entry = #[trigger] self.table@[Self::slot(n, k)];
                entry == 0 || entry == binomial(n as nat, k as nat)
            }
    }

    /// Whether `C(n, k)` has been computed and kept.
    pub closed spec fn holds(&self, n: int, k: int) -> bool {
        0 <= Self::slot(n, k) < self.table@.len() && self.table@[Self::slot(n, k)] != 0
    }

    /// A cache that holds nothing yet.
    pub fn new() -> (cache: BinomialCache)
        ensures
            cache.wf(),
            forall|n: int, k: int| !cache.holds(n, k),
    {
        let mut table: Vec<i64> = Vec::new();
        let mut i: i32 = 0;
        while i < MAX_NUM_TRIALS * (MAX_NUM_TRIALS + 1)
            invariant
                0 <= i <= MAX_NUM_TRIALS * (MAX_NUM_TRIALS + 1),
                table@.len() == i,
                forall|j: int| 0 <= j < i ==> table@[j] == 0,
            decreases MAX_NUM_TRIALS * (MAX_NUM_TRIALS + 1) - i,
        {
            table.push(0);
            i = i + 1;
        }
        BinomialCache { table }
    }

    /// The exact binomial coefficient `C(n, k)`: taken from the table where it
    /// has been computed before, computed and kept where it has not.
    pub fn n_choose_k(&mut self, n: i32, k: i32) -> (result: i64)
        requires
            old(self).wf(),
            1 <= n <= MAX_NUM_TRIALS,
            0 <= k <= n,
        ensures
            final(self).wf(),
            result == binomial(n as nat, k as nat),
            final(self).holds(n as int, k as int),
            forall|m: int, j: int| old(self).holds(m, j) ==> final(self).holds(m, j),
    {
        let slot: usize = ((n - 1) * (MAX_NUM_TRIALS + 1) + k) as usize;
        assert(slot == Self::slot(n as int, k as int));
        let lookup_entry: i64 = self.table[slot];
        if lookup_entry != 0 {
            return lookup_entry;
        }
        let result = n_choose_k(n, k);
        let ghost before = self.table@;
        self.table.set(slot, result);
        proof {
            assert forall|m: int, j: int| 1 <= m <= MAX_NUM_TRIALS && 0 <= j <= m implies {
                let entry = #[trigger] self.table@[Self::slot(m, j)];
                entry == 0 || entry == binomial(m as nat, j as nat)
            } by {
                let entry = before[Self::slot(m, j)];
                assert(entry == 0 || entry == binomial(m as nat, j as nat));
                if Self::slot(m, j) == slot {
                    assert(m == n && j == k) by (nonlinear_arith)
                        requires
                            (m - 1) * 30 + j == (n - 1) * 30 + k,
                            0 <= j <= 29,
                            0 <= k <= 29,
                    ;
                }
            }
        }
        result
    }

    /// The weight of `num_successes` successes in `num_trials` independent
    /// trials, as [`binomial_pmf`] gives it, with the binomial coefficient
    /// taken from this cache.
    pub fn binomial_pmf(
        &mut self,
        num_trials: i32,
        num_successes: i32,
        prob_num: u32,
        prob_den: u32,
    ) -> (weight: u128)
        requires
            old(self).wf(),
            1 <= num_trials <= MAX_NUM_TRIALS,
            0 <= num_successes <= num_trials,
            prob_num <= prob_den,
            pow(prob_den as int, num_trials as nat) <= u128::MAX,
        ensures
            final(self).wf(),
            weight == binomial_weight(
                num_trials as nat,
                num_successes as int,
                prob_num as int,
                prob_den - prob_num,
            ),
            weight <= pow(prob_den as int, num_trials as nat),
            final(self).holds(num_trials as int, num_successes as int),
            forall|m: int, j: int| old(self).holds(m, j) ==> final(self).holds(m, j),
    {
        let ways = self.n_choose_k(num_trials, num_successes);
        weigh(ways, num_trials, num_successes, prob_num, prob_den)
    }
}

/// A power grows with its base.
proof fn lemma_pow_base_le(small: int, big: int, e: nat)
    requires
        0 <= small <= big,
    ensures
        pow(small, e) <= pow(big, e),
    decreases e,
{
    if e == 0 {
        lemma_pow0(small);
        lemma_pow0(big);
    } else {
        lemma_pow_base_le(small, big, (e - 1) as nat);
        lemma_pow_step(small, (e - 1) as nat);
        lemma_pow_step(big, (e - 1) as nat);
        lemma_pow_nonneg(small, (e - 1) as nat);
        assert(small * pow(small, (e - 1) as nat) <= big * pow(big, (e - 1) as nat))
            by (nonlinear_arith)
            requires
                0 <= small <= big,
                0 <= pow(small, (e - 1) as nat) <= pow(big, (e - 1) as nat),
        ;
    }
}

} // verus!
