//! The distribution of a sum of independent rounds.

use std::collections::HashMap;
use vstd::prelude::*;
use vstd::arithmetic::power::{pow, lemma0_pow, lemma1_pow, lemma_pow1, lemma_pow_increases};
use crate::combinatorics::checked_power;
use crate::sums::{
    sum, lemma_sum_ext, lemma_sum_le, lemma_sum_nonneg, lemma_sum_reflect, lemma_sum_scale,
    lemma_sum_shift, lemma_sum_split,
    lemma_sum_swap, lemma_sum_term_le, lemma_sum_update, lemma_sum_widen, lemma_sum_zero,
};
use crate::weight_map::{
    add_to_map_value, checked_total, entries, key_hi, key_lo, lemma_seen, lemma_total_nonneg,
    lists, mass, seen, total,
};

verus! {

/// The weights of a map as a function on all integers.
pub open spec fn mass_fn(m: Map<i32, u128>) -> spec_fn(int) -> int {
    |k: int| mass(m, k) as int
}

/// The weight with which one more round, drawn from `step` as `i`, turns an
/// earlier sum `k - i` into `k`.
pub open spec fn convolve_term(step: Map<i32, u128>, prev: spec_fn(int) -> int, k: int) -> spec_fn(
    int,
) -> int {
    |i: int| mass(step, i) * prev(k - i)
}

/// The weight of the sum `k` after one more round drawn from `step`, where
/// `prev` weighs the sums before it.
pub open spec fn convolve_at(step: Map<i32, u128>, prev: spec_fn(int) -> int, k: int) -> int {
    sum(convolve_term(step, prev, k), key_lo(), key_hi())
}

/// `k` is the sum of `x` and `y`.
pub open spec fn sums_to(x: i32, y: i32, k: int) -> bool {
    x + y == k
}

/// The sum of `x` and `y` is a key that a map can hold.
pub open spec fn sum_fits(x: i32, y: i32) -> bool {
    i32::MIN <= x + y <= i32::MAX
}

/// Earlier weights that agree give the same weights after one more round.
pub proof fn lemma_convolve_ext(
    step: Map<i32, u128>,
    f: spec_fn(int) -> int,
    g: spec_fn(int) -> int,
    k: int,
)
    requires
        forall|j: int| #[trigger] f(j) == g(j),
    ensures
        convolve_at(step, f, k) == convolve_at(step, g, k),
{
    lemma_sum_ext(convolve_term(step, f, k), convolve_term(step, g, k), key_lo(), key_hi());
}

/// Heavier earlier weights give no lighter weights after one more round.
pub proof fn lemma_convolve_le(
    step: Map<i32, u128>,
    f: spec_fn(int) -> int,
    g: spec_fn(int) -> int,
    k: int,
)
    requires
        forall|j: int| #[trigger] f(j) <= g(j),
    ensures
        convolve_at(step, f, k) <= convolve_at(step, g, k),
{
    let tf = convolve_term(step, f, k);
    let tg = convolve_term(step, g, k);
    assert forall|i: int| key_lo() <= i < key_hi() implies #[trigger] tf(i) <= tg(i) by {
        assert(f(k - i) <= g(k - i));
        assert(mass(step, i) * f(k - i) <= mass(step, i) * g(k - i)) by (nonlinear_arith)
            requires
                f(k - i) <= g(k - i),
                mass(step, i) >= 0,
        ;
    }
    lemma_sum_le(tf, tg, key_lo(), key_hi());
}

/// With nothing before it, a round gives no weight to any sum.
proof fn lemma_convolve_empty(step: Map<i32, u128>, k: int)
    ensures
        convolve_at(step, mass_fn(Map::empty()), k) == 0,
{
    let t = convolve_term(step, mass_fn(Map::empty()), k);
    assert forall|i: int| key_lo() <= i < key_hi() implies #[trigger] t(i) == 0 by {
        assert(mass(step, i) * 0 == 0);
    }
    lemma_sum_zero(t, key_lo(), key_hi());
}

/// One more earlier sum `x` of weight `w` adds `w` times the weight of
/// `k - x` in `step` to the weight of `k`.
proof fn lemma_convolve_insert(step: Map<i32, u128>, m: Map<i32, u128>, x: i32, w: u128, k: int)
    requires
        !m.contains_key(x),
    ensures
        convolve_at(step, mass_fn(m.insert(x, w)), k) == convolve_at(step, mass_fn(m), k) + mass(
            step,
            k - x,
        ) * w,
{
    let before = convolve_term(step, mass_fn(m), k);
    let after = convolve_term(step, mass_fn(m.insert(x, w)), k);
    let at = k - x;
    assert forall|i: int| key_lo() <= i < key_hi() && i != at implies #[trigger] before(i)
        == after(i) by {
        assert(mass(m, k - i) == mass(m.insert(x, w), k - i));
    }
    if key_lo() <= at < key_hi() {
        lemma_sum_update(before, after, key_lo(), key_hi(), at);
        assert(mass(m, x as int) == 0);
        assert(mass(m.insert(x, w), x as int) == w);
        assert(before(at) == mass(step, at) * 0);
        assert(after(at) == mass(step, at) * w);
    } else {
        lemma_sum_ext(before, after, key_lo(), key_hi());
        assert(mass(step, at) == 0);
        assert(0 * w == 0);
    }
}

/// The distribution of the sum of a draw from `prev` and an independent draw
/// from `step`, written into `out`.
fn convolve(prev: &HashMap<i32, u128>, step: &HashMap<i32, u128>, out: &mut HashMap<i32, u128>)
    requires
        forall|x: i32, y: i32|
            prev@.contains_key(x) && step@.contains_key(y) ==> sum_fits(x, y),
        forall|k: int| #[trigger] convolve_at(step@, mass_fn(prev@), k) <= u128::MAX,
    ensures
        forall|k: int| mass(final(out)@, k) == #[trigger] convolve_at(step@, mass_fn(prev@), k),
        forall|k: i32|
            final(out)@.contains_key(k) <==> exists|x: i32, y: i32|
                prev@.contains_key(x) && step@.contains_key(y) && sums_to(x, y, k as int),
{
    let prev_items = entries(prev);
    let step_items = entries(step);
    out.clear();
    proof {
        assert forall|k: int| mass(out@, k) == #[trigger] convolve_at(
            step@,
            mass_fn(seen(prev_items@, 0)),
            k,
        ) by {
            lemma_convolve_empty(step@, k);
        }
    }
    let mut a: usize = 0;
    while a < prev_items.len()
        invariant
            lists(prev_items@, prev@),
            lists(step_items@, step@),
            0 <= a <= prev_items.len(),
            forall|x: i32, y: i32|
                prev@.contains_key(x) && step@.contains_key(y) ==> sum_fits(x, y),
            forall|k: int| #[trigger] convolve_at(step@, mass_fn(prev@), k) <= u128::MAX,
            forall|k: int|
                mass(out@, k) == #[trigger] convolve_at(
                    step@,
                    mass_fn(seen(prev_items@, a as int)),
                    k,
                ),
            forall|k: i32|
                #![trigger out@.contains_key(k)]
                out@.contains_key(k) <==> exists|i: int, y: i32|
                    0 <= i < a && step@.contains_key(y) && #[trigger] sums_to(
                        prev_items@[i].0,
                        y,
                        k as int,
                    ),
        decreases prev_items.len() - a,
    {
        let (x, px) = prev_items[a];
        let ghost row_start = out@;
        let ghost earlier = seen(prev_items@, a as int);
        let ghost with_row = seen(prev_items@, a + 1);
        proof {
            lemma_seen(prev_items@, prev@, a as int);
            lemma_seen(prev_items@, prev@, a + 1);
            assert(prev@.contains_key(prev_items@[a as int].0));
        }
        let mut b: usize = 0;
        while b < step_items.len()
            invariant
                lists(prev_items@, prev@),
                lists(step_items@, step@),
                0 <= a < prev_items.len(),
                0 <= b <= step_items.len(),
                (x, px) == prev_items@[a as int],
                prev@.contains_key(x),
                earlier == seen(prev_items@, a as int),
                with_row == seen(prev_items@, a + 1),
                with_row == earlier.insert(x, px),
                !earlier.contains_key(x),
                forall|k: int| mass(with_row, k) <= mass(prev@, k),
                forall|x: i32, y: i32|
                    prev@.contains_key(x) && step@.contains_key(y) ==> sum_fits(x, y),
                forall|k: int| #[trigger] convolve_at(step@, mass_fn(prev@), k) <= u128::MAX,
                forall|k: int|
                    mass(out@, k) == #[trigger] convolve_at(step@, mass_fn(earlier), k) + mass(
                        seen(step_items@, b as int),
                        k - x,
                    ) * px,
                forall|k: i32|
                    #![trigger out@.contains_key(k)]
                    out@.contains_key(k) <==> (row_start.contains_key(k) || exists|j: int|
                        0 <= j < b && #[trigger] sums_to(x, step_items@[j].0, k as int)),
            decreases step_items.len() - b,
        {
            let (y, py) = step_items[b];
            let ghost done = seen(step_items@, b as int);
            let ghost done_next = seen(step_items@, b + 1);
            let ghost before = out@;
            proof {
                lemma_seen(step_items@, step@, b as int);
                lemma_seen(step_items@, step@, b + 1);
                assert(step@.contains_key(step_items@[b as int].0));
                assert(sum_fits(x, y));
                let key = x + y;
                assert(mass(done, y as int) == 0);
                assert(mass(done_next, y as int) == py);
                assert(mass(done_next, key - x) <= mass(step@, key - x));
                lemma_convolve_insert(step@, earlier, x, px, key);
                lemma_convolve_le(step@, mass_fn(with_row), mass_fn(prev@), key);
                assert(mass(out@, key) == convolve_at(step@, mass_fn(earlier), key) + mass(
                    done,
                    key - x,
                ) * px);
                assert(mass(out@, key) + px * py <= u128::MAX && px * py >= 0) by (nonlinear_arith)
                    requires
                        mass(out@, key) == convolve_at(step@, mass_fn(earlier), key) + 0 * px,
                        convolve_at(step@, mass_fn(earlier), key) + mass(step@, key - x) * px
                            <= u128::MAX,
                        py <= mass(step@, key - x),
                        px >= 0,
                        py >= 0,
                        mass(out@, key) >= 0,
                ;
            }
            let amount: u128 = px * py;
            let key: i32 = x + y;
            add_to_map_value(out, &key, amount);
            proof {
                assert forall|k: int|
                    mass(out@, k) == #[trigger] convolve_at(step@, mass_fn(earlier), k) + mass(
                        done_next,
                        k - x,
                    ) * px by {
                    assert(mass(before, k) == convolve_at(step@, mass_fn(earlier), k) + mass(
                        done,
                        k - x,
                    ) * px);
                    if k == key {
                        assert(mass(out@, k) == mass(before, k) + px * py);
                        assert(mass(done, k - x) * px + px * py == mass(done_next, k - x) * px)
                            by (nonlinear_arith)
                            requires
                                mass(done, k - x) == 0,
                                mass(done_next, k - x) == py,
                        ;
                    } else {
                        assert(mass(out@, k) == mass(before, k));
                        assert(mass(done, k - x) == mass(done_next, k - x));
                    }
                }
                assert forall|k: i32| out@.contains_key(k) implies (row_start.contains_key(k)
                    || exists|j: int| 0 <= j < b + 1 && sums_to(x, step_items@[j].0, k as int)) by {
                    if k == key {
                        assert(sums_to(x, step_items@[b as int].0, k as int));
                    } else {
                        assert(before.contains_key(k));
                        if !row_start.contains_key(k) {
                            let j = choose|j: int|
                                0 <= j < b && sums_to(x, step_items@[j].0, k as int);
                            assert(0 <= j < b + 1 && sums_to(x, step_items@[j].0, k as int));
                        }
                    }
                }
                assert forall|k: i32|
                    (row_start.contains_key(k) || exists|j: int|
                        0 <= j < b + 1 && sums_to(x, step_items@[j].0, k as int))
                    implies out@.contains_key(k) by {
                    if row_start.contains_key(k) {
                        assert(before.contains_key(k));
                    } else {
                        let j = choose|j: int|
                            0 <= j < b + 1 && sums_to(x, step_items@[j].0, k as int);
                        if j < b {
                            assert(0 <= j < b && sums_to(x, step_items@[j].0, k as int));
                            assert(before.contains_key(k));
                        } else {
                            assert(k == key);
                        }
                    }
                }
            }
            b = b + 1;
        }
        proof {
            lemma_seen(step_items@, step@, b as int);
            assert forall|k: int|
                mass(out@, k) == #[trigger] convolve_at(step@, mass_fn(with_row), k) by {
                lemma_convolve_insert(step@, earlier, x, px, k);
                assert(mass(out@, k) == convolve_at(step@, mass_fn(earlier), k) + mass(
                    seen(step_items@, b as int),
                    k - x,
                ) * px);
            }
            assert forall|k: i32| out@.contains_key(k) implies exists|i: int, y: i32|
                0 <= i < a + 1 && step@.contains_key(y) && sums_to(
                    prev_items@[i].0,
                    y,
                    k as int,
                ) by {
                if row_start.contains_key(k) {
                    let (i, y) = choose|i: int, y: i32|
                        0 <= i < a && step@.contains_key(y) && sums_to(
                            prev_items@[i].0,
                            y,
                            k as int,
                        );
                    assert(0 <= i < a + 1 && step@.contains_key(y) && sums_to(
                        prev_items@[i].0,
                        y,
                        k as int,
                    ));
                } else {
                    let j = choose|j: int| 0 <= j < b && sums_to(x, step_items@[j].0, k as int);
                    let y = step_items@[j].0;
                    assert(step@.contains_key(step_items@[j].0));
                    assert(0 <= a < a + 1 && step@.contains_key(y) && sums_to(
                        prev_items@[a as int].0,
                        y,
                        k as int,
                    ));
                }
            }
            assert forall|k: i32|
                (exists|i: int, y: i32|
                    0 <= i < a + 1 && step@.contains_key(y) && sums_to(
                        prev_items@[i].0,
                        y,
                        k as int,
                    )) implies out@.contains_key(k) by {
                let (i, y) = choose|i: int, y: i32|
                    0 <= i < a + 1 && step@.contains_key(y) && sums_to(
                        prev_items@[i].0,
                        y,
                        k as int,
                    );
                if i < a {
                    assert(0 <= i < a && step@.contains_key(y) && sums_to(
                        prev_items@[i].0,
                        y,
                        k as int,
                    ));
                    assert(row_start.contains_key(k));
                } else {
                    let j = choose|j: int|
                        0 <= j < step_items@.len() && #[trigger] step_items@[j].0 == y;
                    assert(0 <= j < b && sums_to(x, step_items@[j].0, k as int));
                }
            }
        }
        a = a + 1;
    }
    proof {
        lemma_seen(prev_items@, prev@, a as int);
        assert forall|k: i32|
            out@.contains_key(k) <==> exists|x: i32, y: i32|
                prev@.contains_key(x) && step@.contains_key(y) && sums_to(x, y, k as int) by {
            if out@.contains_key(k) {
                let (i, y) = choose|i: int, y: i32|
                    0 <= i < a && step@.contains_key(y) && sums_to(prev_items@[i].0, y, k as int);
                let x = prev_items@[i].0;
                assert(prev@.contains_key(prev_items@[i].0));
                assert(prev@.contains_key(x) && step@.contains_key(y) && sums_to(x, y, k as int));
            }
            if exists|x: i32, y: i32|
                prev@.contains_key(x) && step@.contains_key(y) && sums_to(x, y, k as int) {
                let (x, y) = choose|x: i32, y: i32|
                    prev@.contains_key(x) && step@.contains_key(y) && sums_to(x, y, k as int);
                let i = choose|i: int|
                    0 <= i < prev_items@.len() && #[trigger] prev_items@[i].0 == x;
                assert(0 <= i < a && step@.contains_key(y) && sums_to(
                    prev_items@[i].0,
                    y,
                    k as int,
                ));
            }
        }
    }
}

/// The weight of the sum `k` after `rounds` independent rounds, each drawn
/// from `single`.
pub open spec fn rounds_mass(single: Map<i32, u128>, rounds: nat, k: int) -> int
    decreases rounds, 0nat,
{
    if rounds <= 1 {
        mass(single, k) as int
    } else {
        convolve_at(single, rounds_fn(single, (rounds - 1) as nat), k)
    }
}

/// The weights after `rounds` rounds as a function on all integers.
pub open spec fn rounds_fn(single: Map<i32, u128>, rounds: nat) -> spec_fn(int) -> int
    decreases rounds, 1nat,
{
    |k: int| rounds_mass(single, rounds, k)
}

/// `k` is the sum of `rounds` keys of `single`, one for each round.
pub open spec fn is_round_sum(single: Map<i32, u128>, rounds: nat, k: int) -> bool
    decreases rounds,
{
    if rounds <= 1 {
        key_lo() <= k < key_hi() && single.contains_key(k as i32)
    } else {
        exists|y: i32| #[trigger]
            single.contains_key(y) && is_round_sum(single, (rounds - 1) as nat, k - y)
    }
}

/// Every sum of `rounds` keys of `single` is a key that a map can hold.
pub open spec fn keys_fit(single: Map<i32, u128>, rounds: int) -> bool {
    forall|k: i32| #[trigger] single.contains_key(k) ==> i32::MIN <= k * rounds <= i32::MAX
}

/// Every weight of every round up to `rounds` fits in 128 bits.
pub open spec fn weights_fit(single: Map<i32, u128>, rounds: int) -> bool {
    forall|r: nat, k: int| 1 <= r <= rounds ==> #[trigger] rounds_mass(single, r, k) <= u128::MAX
}

/// No sum has a negative weight.
pub proof fn lemma_rounds_nonneg(single: Map<i32, u128>, rounds: nat, k: int)
    ensures
        rounds_mass(single, rounds, k) >= 0,
    decreases rounds,
{
    if rounds > 1 {
        let prev = rounds_fn(single, (rounds - 1) as nat);
        let t = convolve_term(single, prev, k);
        assert forall|i: int| key_lo() <= i < key_hi() implies #[trigger] t(i) >= 0 by {
            lemma_rounds_nonneg(single, (rounds - 1) as nat, k - i);
            assert(mass(single, i) * prev(k - i) >= 0) by (nonlinear_arith)
                requires
                    mass(single, i) >= 0,
                    prev(k - i) >= 0,
            ;
        }
        lemma_sum_nonneg(t, key_lo(), key_hi());
    }
}

/// A sum of `r` keys lies between `r` times the least and `r` times the
/// greatest, so where `n` times each key fits, so does the sum, for `r <= n`.
pub proof fn lemma_round_sum_bound(single: Map<i32, u128>, n: int, r: nat, k: int)
    requires
        keys_fit(single, n),
        1 <= r <= n,
        is_round_sum(single, r, k),
    ensures
        r * i32::MIN <= n * k <= r * i32::MAX,
        key_lo() <= k < key_hi(),
    decreases r,
{
    if r <= 1 {
        assert(single.contains_key(k as i32));
        assert(n * k == (k as i32) * n) by (nonlinear_arith)
            requires
                k == (k as i32) as int,
        ;
    } else {
        let y = choose|y: i32| #[trigger]
            single.contains_key(y) && is_round_sum(single, (r - 1) as nat, k - y);
        lemma_round_sum_bound(single, n, (r - 1) as nat, k - y);
        assert(r * i32::MIN <= n * k <= r * i32::MAX) by (nonlinear_arith)
            requires
                (r - 1) * i32::MIN <= n * (k - y) <= (r - 1) * i32::MAX,
                i32::MIN <= y * n <= i32::MAX,
        ;
        assert(key_lo() <= k < key_hi()) by (nonlinear_arith)
            requires
                r * i32::MIN <= n * k <= r * i32::MAX,
                1 <= r <= n,
                key_lo() == i32::MIN,
                key_hi() == i32::MAX + 1,
        ;
    }
}

/// Only sums of `rounds` keys have a weight.
pub proof fn lemma_rounds_support(single: Map<i32, u128>, rounds: nat, k: int)
    requires
        !is_round_sum(single, rounds, k),
    ensures
        rounds_mass(single, rounds, k) == 0,
    decreases rounds,
{
    if rounds > 1 {
        let prev = rounds_fn(single, (rounds - 1) as nat);
        let t = convolve_term(single, prev, k);
        assert forall|i: int| key_lo() <= i < key_hi() implies #[trigger] t(i) == 0 by {
            if mass(single, i) != 0 {
                let y = i as i32;
                assert(single.contains_key(y));
                assert(!is_round_sum(single, (rounds - 1) as nat, k - y));
                lemma_rounds_support(single, (rounds - 1) as nat, k - i);
                assert(mass(single, i) * 0 == 0);
            } else {
                assert(0 * prev(k - i) == 0);
            }
        }
        lemma_sum_zero(t, key_lo(), key_hi());
    }
}

/// A sum of `r` keys lies between `r` times the least and `r` times the
/// greatest key that a map can hold.
pub proof fn lemma_round_sum_range(single: Map<i32, u128>, r: nat, k: int)
    requires
        1 <= r,
        is_round_sum(single, r, k),
    ensures
        r * key_lo() <= k <= r * (key_hi() - 1),
    decreases r,
{
    if r > 1 {
        let y = choose|y: i32| #[trigger]
            single.contains_key(y) && is_round_sum(single, (r - 1) as nat, k - y);
        lemma_round_sum_range(single, (r - 1) as nat, k - y);
        assert(r * key_lo() <= k <= r * (key_hi() - 1)) by (nonlinear_arith)
            requires
                (r - 1) * key_lo() <= k - y <= (r - 1) * (key_hi() - 1),
                key_lo() <= y <= key_hi() - 1,
        ;
    } else {
        assert(r * key_lo() == key_lo() && r * (key_hi() - 1) == key_hi() - 1) by (nonlinear_arith)
            requires
                r == 1,
        ;
    }
}

/// Mass is conserved, for every map and every number of rounds: the weights
/// of all sums after `r` rounds add up to the `r`-th power of what the weights
/// of one round add up to. So where the weights of one round are
/// probabilities over a denominator, those of `r` rounds are probabilities
/// over its `r`-th power, and add up to one as well.
pub proof fn lemma_rounds_conserve_mass(single: Map<i32, u128>, r: nat)
    requires
        1 <= r,
    ensures
        sum(rounds_fn(single, r), r * key_lo(), r * key_hi()) == pow(total(single), r),
    decreases r,
{
    let whole = total(single);
    let now = rounds_fn(single, r);
    if r <= 1 {
        assert(r * key_lo() == key_lo() && r * key_hi() == key_hi()) by (nonlinear_arith)
            requires
                r == 1,
        ;
        lemma_sum_ext(now, |k: int| mass(single, k) as int, key_lo(), key_hi());
        lemma_pow1(whole);
    } else {
        let before = (r - 1) as nat;
        let prev = rounds_fn(single, before);
        let part = pow(whole, before);
        let lo = r * key_lo();
        let hi = r * key_hi();
        let prev_lo = before * key_lo();
        let prev_hi = before * key_hi();
        lemma_rounds_conserve_mass(single, before);
        assert(sum(prev, prev_lo, prev_hi) == part);
        assert(prev_lo == lo - key_lo() && prev_hi == hi - key_hi() && prev_lo <= prev_hi)
            by (nonlinear_arith)
            requires
                prev_lo == (r - 1) * key_lo(),
                prev_hi == (r - 1) * key_hi(),
                lo == r * key_lo(),
                hi == r * key_hi(),
                key_lo() < key_hi(),
                r >= 2,
        ;
        let table = |k: int, i: int| mass(single, i) * rounds_mass(single, before, k - i);
        let cols = |i: int| part * (mass(single, i) as int);
        assert forall|k: int| lo <= k < hi implies #[trigger] now(k) == sum(
            |i: int| table(k, i),
            key_lo(),
            key_hi(),
        ) by {
            lemma_sum_ext(
                convolve_term(single, prev, k),
                |i: int| table(k, i),
                key_lo(),
                key_hi(),
            );
        }
        assert forall|i: int| key_lo() <= i < key_hi() implies #[trigger] cols(i) == sum(
            |k: int| table(k, i),
            lo,
            hi,
        ) by {
            let weight = mass(single, i) as int;
            let shifted = |k: int| prev(k - i);
            lemma_sum_scale(shifted, |k: int| table(k, i), weight, lo, hi);
            lemma_sum_shift(prev, shifted, i, lo, hi);
            assert forall|j: int|
                (lo - i <= j < hi - i) && !(prev_lo <= j < prev_hi) implies #[trigger] prev(j)
                == 0 by {
                if is_round_sum(single, before, j) {
                    lemma_round_sum_range(single, before, j);
                    assert(before * (key_hi() - 1) < prev_hi) by (nonlinear_arith)
                        requires
                            prev_hi == before * key_hi(),
                            before >= 1,
                    ;
                } else {
                    lemma_rounds_support(single, before, j);
                }
            }
            lemma_sum_widen(prev, prev_lo, prev_hi, lo - i, hi - i);
            assert(part * weight == weight * part) by (nonlinear_arith);
        }
        lemma_sum_swap(table, now, cols, lo, hi, key_lo(), key_hi());
        lemma_sum_scale(|i: int| mass(single, i) as int, cols, part, key_lo(), key_hi());
        assert(pow(whole, r) == whole * pow(whole, (r - 1) as nat)) by {
            reveal(pow);
        }
        assert(part * whole == whole * part) by (nonlinear_arith);
    }
}

/// A distribution whose weights add up to one keeps that sum over any number
/// of rounds: the weights of all sums add up to what those of one round add
/// up to.
pub proof fn lemma_rounds_keep_unit_mass(single: Map<i32, u128>, r: nat)
    requires
        1 <= r,
        total(single) == 1,
    ensures
        sum(rounds_fn(single, r), r * key_lo(), r * key_hi()) == total(single),
{
    lemma_rounds_conserve_mass(single, r);
    lemma1_pow(r);
}

/// Where every sum of the rounds' keys is a key that a map can hold, the
/// weights of the keys that a map can hold already add up to the `r`-th power
/// of the total of one round.
pub proof fn lemma_rounds_total(single: Map<i32, u128>, n: int, r: nat)
    requires
        keys_fit(single, n),
        1 <= r <= n,
    ensures
        sum(rounds_fn(single, r), key_lo(), key_hi()) == pow(total(single), r),
{
    let now = rounds_fn(single, r);
    lemma_rounds_conserve_mass(single, r);
    assert(r * key_lo() <= key_lo() && key_hi() <= r * key_hi()) by (nonlinear_arith)
        requires
            r >= 1,
            key_lo() < 0 < key_hi(),
    ;
    assert forall|k: int|
        (r * key_lo() <= k < r * key_hi()) && !(key_lo() <= k < key_hi()) implies #[trigger] now(k)
        == 0 by {
        if is_round_sum(single, r, k) {
            lemma_round_sum_bound(single, n, r, k);
        } else {
            lemma_rounds_support(single, r, k);
        }
    }
    lemma_sum_widen(now, key_lo(), key_hi(), r * key_lo(), r * key_hi());
}

/// `mirrored` is `single` turned around zero: it holds `-k` where `single`
/// holds `k`, with the same weight.
pub open spec fn is_mirror(mirrored: Map<i32, u128>, single: Map<i32, u128>) -> bool {
    &&& forall|k: int| #[trigger] mass(mirrored, k) == mass(single, -k)
    &&& forall|k: i32| #[trigger] mirrored.contains_key(k) ==> single.contains_key((-k) as i32)
    &&& forall|k: i32| #[trigger] single.contains_key(k) ==> mirrored.contains_key((-k) as i32)
    &&& !single.contains_key(i32::MIN)
    &&& !mirrored.contains_key(i32::MIN)
}

/// The mirror law of several rounds: where one round is turned around zero,
/// so is the total of the rounds. So rounds that are symmetric around zero
/// add up to a total that is symmetric around zero.
pub proof fn lemma_rounds_mirror(
    single: Map<i32, u128>,
    mirrored: Map<i32, u128>,
    rounds: nat,
    k: int,
)
    requires
        is_mirror(mirrored, single),
    ensures
        rounds_mass(mirrored, rounds, k) == rounds_mass(single, rounds, -k),
        is_round_sum(mirrored, rounds, k) == is_round_sum(single, rounds, -k),
    decreases rounds,
{
    if rounds > 1 {
        let before = (rounds - 1) as nat;
        let here = convolve_term(mirrored, rounds_fn(mirrored, before), k);
        let there = convolve_term(single, rounds_fn(single, before), -k);
        assert forall|i: int| key_lo() <= i < key_hi() implies #[trigger] here(i) == there(-i) by {
            lemma_rounds_mirror(single, mirrored, before, k - i);
            assert(mass(mirrored, i) == mass(single, -i));
        }
        lemma_sum_reflect(there, here, key_lo(), key_hi());
        lemma_sum_split(there, key_lo(), key_lo() + 1, key_hi() + 1);
        lemma_sum_split(there, key_lo(), key_hi(), key_hi() + 1);
        assert(sum(there, key_lo(), key_lo() + 1) == sum(there, key_lo(), key_lo()) + there(
            key_lo(),
        ));
        assert(sum(there, key_hi(), key_hi() + 1) == sum(there, key_hi(), key_hi()) + there(
            key_hi(),
        ));
        assert(mass(single, key_lo()) == 0 && mass(single, key_hi()) == 0);
        assert(there(key_lo()) == 0 && there(key_hi()) == 0) by (nonlinear_arith)
            requires
                there(key_lo()) == mass(single, key_lo()) * rounds_fn(single, before)(
                    -k - key_lo(),
                ),
                there(key_hi()) == mass(single, key_hi()) * rounds_fn(single, before)(
                    -k - key_hi(),
                ),
                mass(single, key_lo()) == 0,
                mass(single, key_hi()) == 0,
        ;
        if is_round_sum(mirrored, rounds, k) {
            let y = choose|y: i32| #[trigger]
                mirrored.contains_key(y) && is_round_sum(mirrored, before, k - y);
            lemma_rounds_mirror(single, mirrored, before, k - y);
            let z = (-y) as i32;
            assert(single.contains_key(z) && is_round_sum(single, before, -k - z));
        }
        if is_round_sum(single, rounds, -k) {
            let z = choose|z: i32| #[trigger]
                single.contains_key(z) && is_round_sum(single, before, -k - z);
            let y = (-z) as i32;
            lemma_rounds_mirror(single, mirrored, before, k - y);
            assert(mirrored.contains_key(y) && is_round_sum(mirrored, before, k - y));
        }
    } else {
        assert(mass(mirrored, k) == mass(single, -k));
        if key_lo() <= k < key_hi() && mirrored.contains_key(k as i32) {
            assert(single.contains_key((-(k as i32)) as i32));
        }
        if key_lo() <= -k < key_hi() && single.contains_key((-k) as i32) {
            assert(mirrored.contains_key((-((-k) as i32)) as i32));
        }
    }
}

/// Where the total of the last round fits in 128 bits, so does every weight of
/// every round.
pub proof fn lemma_total_fits(single: Map<i32, u128>, n: int)
    requires
        keys_fit(single, n),
        pow(total(single), n as nat) <= u128::MAX,
    ensures
        weights_fit(single, n),
{
    let whole = total(single);
    lemma_total_nonneg(single);
    assert forall|r: nat, k: int| 1 <= r <= n implies #[trigger] rounds_mass(single, r, k)
        <= u128::MAX by {
        let now = rounds_fn(single, r);
        lemma_rounds_total(single, n, r);
        if whole > 0 {
            lemma_pow_increases(whole as nat, r, n as nat);
        } else {
            lemma0_pow(r);
        }
        assert(pow(whole, r) <= u128::MAX);
        if key_lo() <= k < key_hi() {
            assert forall|j: int| key_lo() <= j < key_hi() implies #[trigger] now(j) >= 0 by {
                lemma_rounds_nonneg(single, r, j);
            }
            lemma_sum_term_le(now, key_lo(), key_hi(), k);
        } else {
            if is_round_sum(single, r, k) {
                lemma_round_sum_bound(single, n, r, k);
            }
            lemma_rounds_support(single, r, k);
        }
    }
}

/// The distribution of the total of `num_rounds` independent rounds, each
/// with the distribution `single_round`.
///
/// Two buffers are kept, the rounds so far and the round being built; for
/// each further round they change places.
pub fn calc_multi_round_damage(single_round: &HashMap<i32, u128>, num_rounds: i32) -> (result:
    HashMap<i32, u128>)
    requires
        num_rounds >= 1,
        keys_fit(single_round@, num_rounds as int),
        weights_fit(single_round@, num_rounds as int),
    ensures
        forall|k: int| mass(result@, k) == rounds_mass(single_round@, num_rounds as nat, k),
        forall|k: i32|
            result@.contains_key(k) <==> is_round_sum(single_round@, num_rounds as nat, k as int),
        num_rounds == 1 ==> result@ == single_round@,
        total(result@) == pow(total(single_round@), num_rounds as nat),
{
    let mut latest = single_round.clone();
    let mut prev: HashMap<i32, u128> = HashMap::new();
    let mut round: i32 = 1;
    while round < num_rounds
        invariant
            1 <= round <= num_rounds,
            keys_fit(single_round@, num_rounds as int),
            weights_fit(single_round@, num_rounds as int),
            forall|k: int| mass(latest@, k) == rounds_mass(single_round@, round as nat, k),
            forall|k: i32|
                #![trigger latest@.contains_key(k)]
                latest@.contains_key(k) <==> is_round_sum(single_round@, round as nat, k as int),
            round == 1 ==> latest@ == single_round@,
        decreases num_rounds - round,
    {
        std::mem::swap(&mut prev, &mut latest);
        let ghost next = (round + 1) as nat;
        proof {
            let earlier = rounds_fn(single_round@, round as nat);
            assert forall|x: i32, y: i32|
                prev@.contains_key(x) && single_round@.contains_key(y) implies sum_fits(x, y) by {
                assert(is_round_sum(single_round@, round as nat, (x + y) - y));
                assert(is_round_sum(single_round@, next, x + y));
                lemma_round_sum_bound(single_round@, num_rounds as int, next, x + y);
            }
            assert forall|k: int| #[trigger]
                convolve_at(single_round@, mass_fn(prev@), k) <= u128::MAX by {
                lemma_convolve_ext(single_round@, mass_fn(prev@), earlier, k);
                assert(rounds_mass(single_round@, next, k) <= u128::MAX);
            }
        }
        convolve(&prev, single_round, &mut latest);
        proof {
            let earlier = rounds_fn(single_round@, round as nat);
            assert forall|k: int| mass(latest@, k) == rounds_mass(single_round@, next, k) by {
                lemma_convolve_ext(single_round@, mass_fn(prev@), earlier, k);
            }
            assert forall|k: i32| latest@.contains_key(k) implies is_round_sum(
                single_round@,
                next,
                k as int,
            ) by {
                let (x, y) = choose|x: i32, y: i32|
                    prev@.contains_key(x) && single_round@.contains_key(y) && sums_to(
                        x,
                        y,
                        k as int,
                    );
                assert(is_round_sum(single_round@, round as nat, k - y));
            }
            assert forall|k: i32|
                is_round_sum(single_round@, next, k as int) implies latest@.contains_key(k) by {
                let y = choose|y: i32| #[trigger]
                    single_round@.contains_key(y) && is_round_sum(
                        single_round@,
                        round as nat,
                        k - y,
                    );
                lemma_round_sum_bound(single_round@, num_rounds as int, round as nat, k - y);
                let x = (k - y) as i32;
                assert(prev@.contains_key(x));
                assert(sums_to(x, y, k as int));
            }
        }
        round = round + 1;
    }
    proof {
        lemma_rounds_total(single_round@, num_rounds as int, num_rounds as nat);
        lemma_sum_ext(
            |k: int| mass(latest@, k) as int,
            rounds_fn(single_round@, num_rounds as nat),
            key_lo(),
            key_hi(),
        );
    }
    latest
}

/// The rounds can be added up: there is at least one, every sum of their keys
/// is a key that a map can hold, and the total of the last round fits in 128
/// bits.
pub open spec fn rounds_fit(single: Map<i32, u128>, rounds: int) -> bool {
    &&& 1 <= rounds
    &&& keys_fit(single, rounds)
    &&& pow(total(single), rounds as nat) <= u128::MAX
}

/// `result` is the distribution of the total of `rounds` independent rounds,
/// each with the distribution `single`.
pub open spec fn is_multi_round(
    result: Map<i32, u128>,
    single: Map<i32, u128>,
    rounds: int,
) -> bool {
    &&& forall|k: int| mass(result, k) == rounds_mass(single, rounds as nat, k)
    &&& forall|k: i32| result.contains_key(k) <==> is_round_sum(single, rounds as nat, k as int)
    &&& total(result) == pow(total(single), rounds as nat)
}

/// Whether `rounds` times each key of `single` is a key that a map can hold.
fn check_keys_fit(single_round: &HashMap<i32, u128>, num_rounds: i32) -> (ok: bool)
    requires
        1 <= num_rounds,
    ensures
        ok == keys_fit(single_round@, num_rounds as int),
{
    let items = entries(single_round);
    let mut i: usize = 0;
    while i < items.len()
        invariant
            1 <= num_rounds,
            lists(items@, single_round@),
            0 <= i <= items.len(),
            forall|j: int|
                0 <= j < i ==> i32::MIN <= (#[trigger] items@[j]).0 * num_rounds <= i32::MAX,
        decreases items.len() - i,
    {
        let key: i64 = items[i].0 as i64;
        assert(-0x8000_0000 * 0x8000_0000 <= key * num_rounds <= 0x8000_0000 * 0x8000_0000)
            by (nonlinear_arith)
            requires
                -0x8000_0000 <= key < 0x8000_0000,
                1 <= num_rounds < 0x8000_0000,
        ;
        let product: i64 = key * (num_rounds as i64);
        if product < i32::MIN as i64 || product > i32::MAX as i64 {
            assert(single_round@.contains_key(items@[i as int].0));
            return false;
        }
        i = i + 1;
    }
    assert forall|k: i32| #[trigger] single_round@.contains_key(k) implies i32::MIN <= k
        * num_rounds <= i32::MAX by {
        let j = choose|j: int| 0 <= j < items@.len() && #[trigger] items@[j].0 == k;
        assert(i32::MIN <= items@[j].0 * num_rounds <= i32::MAX);
    }
    true
}

/// The distribution of the total of `num_rounds` independent rounds, where
/// it can be held: `None` where there is no round, where a sum of keys does not
/// fit in 32 bits, or where the total of the weights does not fit in 128.
pub fn checked_multi_round_damage(single_round: &HashMap<i32, u128>, num_rounds: i32) -> (result:
    Option<HashMap<i32, u128>>)
    ensures
        match result {
            Some(dmg) => rounds_fit(single_round@, num_rounds as int) && is_multi_round(
                dmg@,
                single_round@,
                num_rounds as int,
            ),
            None => !rounds_fit(single_round@, num_rounds as int),
        },
{
    if num_rounds < 1 {
        return None;
    }
    if !check_keys_fit(single_round, num_rounds) {
        return None;
    }
    let whole = match checked_total(single_round) {
        Some(t) => t,
        None => {
            proof {
                lemma_pow_increases(total(single_round@) as nat, 1, num_rounds as nat);
                lemma_pow1(total(single_round@));
            }
            return None;
        },
    };
    match checked_power(whole, num_rounds as u32) {
        Some(_) => {
            proof {
                lemma_total_fits(single_round@, num_rounds as int);
            }
            Some(calc_multi_round_damage(single_round, num_rounds))
        },
        None => None,
    }
}

} // verus!
